use vstd::prelude::*;

use crate::chars::{blank, chars_of, find_char, index_from, is_blank, words};
use crate::html::{
    cell_text, cell_text_spec, cell_view, header_text, header_text_spec, html_table_walks, row_view,
    table_view, table_walks, DomEvent, DomEventView,
};
use crate::text::{normalize, normalize_spec, occurrences, word_counts};

verus! {

broadcast use vstd::string::group_string_axioms;

/// Where a tracker's spreadsheet is published.
#[derive(Debug)]
pub struct TrackerConfig {
    pub name: &'static str,
    pub url: &'static str,
}

/// One row of a tracker: the entry's name and its other columns.
#[derive(Debug, Clone)]
pub struct TrackerRecord {
    name: String,
    fields: Vec<String>,
}

impl TrackerRecord {
    /// The record's name.
    pub closed spec fn spec_name(&self) -> Seq<char> {
        self.name@
    }

    /// The record's other columns, in the order of the tracker's headers.
    pub closed spec fn spec_fields(&self) -> Seq<Seq<char>> {
        self.fields@.map_values(|f: String| f@)
    }

    /// A record with the given name and columns.
    pub fn new(name: String, fields: Vec<String>) -> (r: TrackerRecord)
        ensures
            r.spec_name() == name@,
            r.spec_fields() == fields@.map_values(|f: String| f@),
    {
        TrackerRecord { name, fields }
    }

    /// The record's name.
    pub fn name(&self) -> (r: &str)
        ensures
            r@ == self.spec_name(),
    {
        self.name.as_str()
    }

    /// The record's other columns.
    pub fn fields(&self) -> (r: &Vec<String>)
        ensures
            r@.map_values(|f: String| f@) == self.spec_fields(),
    {
        &self.fields
    }
}

/// A record that matched a search, with its name split at the first line break.
#[derive(Debug, Clone, Copy)]
pub struct SearchResult<'a> {
    pub name_raw: &'a str,
    pub name_clean: &'a str,
    pub name_extra: Option<&'a str>,
    pub record: &'a TrackerRecord,
}

/// The part of a name before its first line break, and the part after it if there is one.
pub open spec fn split_name(s: Seq<char>) -> (Seq<char>, Option<Seq<char>>) {
    let k = index_from(s, '\n', 0);
    if k < s.len() {
        (s.take(k), Some(s.skip(k + 1)))
    } else {
        (s, None)
    }
}

/// `res` is the search result for `rec`.
pub open spec fn result_for(res: SearchResult, rec: TrackerRecord) -> bool {
    &&& *res.record == rec
    &&& res.name_raw@ == rec.spec_name()
    &&& res.name_clean@ == split_name(rec.spec_name()).0
    &&& match (res.name_extra, split_name(rec.spec_name()).1) {
        (Some(e), Some(x)) => e@ == x,
        (None, None) => true,
        _ => false,
    }
}

/// Whether a normalized name matches a normalized query: every word of the query
/// occurs in the name at least as often as in the query.
pub open spec fn name_matches(query: Seq<char>, name: Seq<char>) -> bool {
    forall|w: Seq<char>| occurrences(words(query), w) <= occurrences(words(name), w)
}

/// The positions, among the first `n` records, of those whose normalized name
/// matches the normalized query `q`, in order.
pub open spec fn matching_upto(recs: Seq<TrackerRecord>, q: Seq<char>, n: int) -> Seq<int>
    decreases n,
{
    if n <= 0 {
        seq![]
    } else {
        let prev = matching_upto(recs, q, n - 1);
        if name_matches(q, normalize_spec(recs[n - 1].spec_name())) {
            prev.push(n - 1)
        } else {
            prev
        }
    }
}

/// The positions of the records that a search for `query` finds, in order.
pub open spec fn search_spec(recs: Seq<TrackerRecord>, query: Seq<char>) -> Seq<int> {
    let q = normalize_spec(query);
    if q.len() == 0 {
        seq![]
    } else {
        matching_upto(recs, q, recs.len() as int)
    }
}

/// A searchable tracker: its column headers (without the name column), its records,
/// and an index of the records' normalized names.
#[derive(Debug)]
pub struct Tracker {
    name: &'static str,
    headers: Vec<String>,
    records: Vec<TrackerRecord>,
    index: Vec<(String, usize)>,
}

impl Tracker {
    /// The tracker's name.
    pub closed spec fn spec_name(&self) -> Seq<char> {
        self.name@
    }

    /// The tracker's name.
    pub fn name(&self) -> (r: &'static str)
        ensures
            r@ == self.spec_name(),
    {
        self.name
    }

    /// How many records the tracker holds.
    pub fn record_count(&self) -> (r: usize)
        ensures
            r == self.spec_records().len(),
    {
        self.records.len()
    }

    /// The tracker's column headers, the name column left out.
    pub fn headers(&self) -> (r: &Vec<String>)
        ensures
            r@.map_values(|h: String| h@) == self.spec_headers(),
    {
        &self.headers
    }

    /// The tracker's column headers, the name column left out.
    pub closed spec fn spec_headers(&self) -> Seq<Seq<char>> {
        self.headers@.map_values(|h: String| h@)
    }

    /// The tracker's records, in the order of the spreadsheet.
    pub closed spec fn spec_records(&self) -> Seq<TrackerRecord> {
        self.records@
    }

    /// The index holds, for each record in order, its normalized name and position.
    #[verifier::type_invariant]
    pub closed spec fn wf(&self) -> bool {
        &&& self.index@.len() == self.records@.len()
        &&& forall|i: int|
            #![trigger self.index@[i]]
            0 <= i < self.index@.len() ==> self.index@[i].1 == i
                && self.index@[i].0@ == normalize_spec(self.records@[i].spec_name())
    }

    /// A tracker over the given headers and records, with its search index built.
    pub fn from_records(name: &'static str, headers: Vec<String>, records: Vec<TrackerRecord>) -> (t:
        Tracker)
        ensures
            t.wf(),
            t.spec_name() == name@,
            t.spec_headers() == headers@.map_values(|h: String| h@),
            t.spec_records() == records@,
    {
        let mut index: Vec<(String, usize)> = Vec::new();
        let mut i: usize = 0;
        while i < records.len()
            invariant
                i <= records@.len(),
                index@.len() == i,
                forall|j: int|
                    #![trigger index@[j]]
                    0 <= j < i ==> index@[j].1 == j && index@[j].0@ == normalize_spec(
                        records@[j].spec_name(),
                    ),
            decreases records@.len() - i,
        {
            let key = normalize(records[i].name.as_str());
            index.push((key, i));
            i = i + 1;
        }
        let t = Tracker { name, headers, records, index };
        proof {
            use_type_invariant(&t);
        }
        t
    }

    /// The records whose normalized name holds every word of the normalized query at
    /// least as often as the query does, in the order of the spreadsheet. A query that
    /// normalizes to nothing finds nothing.
    pub fn search(&self, query: &str) -> (r: Vec<SearchResult<'_>>)
        ensures
            r@.len() == search_spec(self.spec_records(), query@).len(),
            forall|k: int|
                0 <= k < r@.len() ==> result_for(
                    #[trigger] r@[k],
                    self.spec_records()[search_spec(self.spec_records(), query@)[k]],
                ),
    {
        proof {
            use_type_invariant(self);
        }
        let normalized = normalize(query);
        let mut results: Vec<SearchResult<'_>> = Vec::new();
        if normalized.as_str().is_empty() {
            return results;
        }
        let query_counts = word_counts(normalized.as_str());
        let ghost q = normalized@;
        let ghost recs = self.records@;
        for i in 0..self.index.len()
            invariant
                self.wf(),
                q == normalize_spec(query@),
                q.len() > 0,
                recs == self.records@,
                forall|w: Seq<char>| #[trigger] query_counts.count(w) == occurrences(words(q), w),
                results@.len() == matching_upto(recs, q, i as int).len(),
                forall|k: int|
                    0 <= k < results@.len() ==> result_for(
                        #[trigger] results@[k],
                        recs[matching_upto(recs, q, i as int)[k]],
                    ),
        {
            let name_counts = word_counts(self.index[i].0.as_str());
            let found = name_counts.contains_all(&query_counts);
            assert(self.index@[i as int].1 == i);
            if found {
                proof {
                    assert forall|w: Seq<char>|
                        occurrences(words(q), w) <= occurrences(
                            words(normalize_spec(recs[i as int].spec_name())),
                            w,
                        ) by {
                        assert(query_counts.count(w) <= name_counts.count(w));
                    }
                }
                let record = &self.records[self.index[i].1];
                let res = Self::result_of(record);
                results.push(res);
            } else {
                proof {
                    let w = choose|w: Seq<char>| !(query_counts.count(w) <= name_counts.count(w));
                    assert(!(occurrences(words(q), w) <= occurrences(
                        words(normalize_spec(recs[i as int].spec_name())),
                        w,
                    )));
                }
            }
        }
        results
    }

    /// The search result for `record`: its name, split at the first line break.
    fn result_of(record: &TrackerRecord) -> (r: SearchResult<'_>)
        ensures
            result_for(r, *record),
    {
        let name_raw = record.name.as_str();
        let chars = chars_of(name_raw);
        let k = find_char(&chars, '\n');
        if k < chars.len() {
            let clean = name_raw.substring_char(0, k);
            let extra = name_raw.substring_char(k + 1, chars.len());
            SearchResult { name_raw, name_clean: clean, name_extra: Some(extra), record }
        } else {
            SearchResult { name_raw, name_clean: name_raw, name_extra: None, record }
        }
    }
}


/// Why a tracker page could not be read.
pub enum ParseError {
    /// No row of the table has a cell.
    NoHeaderRow,
    /// The header row has no cell.
    EmptyHeaderRow,
    /// No header starts with "Name"; the headers that were found.
    NoNameColumn(Vec<String>),
    /// No row after the header row holds data.
    NoDataRows,
}

/// `ParseError` over character sequences.
pub enum ParseErrorView {
    NoHeaderRow,
    EmptyHeaderRow,
    NoNameColumn(Seq<Seq<char>>),
    NoDataRows,
}

/// The texts of a list of strings.
pub open spec fn strings_view(v: Seq<String>) -> Seq<Seq<char>> {
    v.map_values(|s: String| s@)
}

impl View for ParseError {
    type V = ParseErrorView;

    open spec fn view(&self) -> ParseErrorView {
        match self {
            ParseError::NoHeaderRow => ParseErrorView::NoHeaderRow,
            ParseError::EmptyHeaderRow => ParseErrorView::EmptyHeaderRow,
            ParseError::NoNameColumn(h) => ParseErrorView::NoNameColumn(strings_view(h@)),
            ParseError::NoDataRows => ParseErrorView::NoDataRows,
        }
    }
}

/// A record as its name and other columns.
pub open spec fn record_view(r: TrackerRecord) -> (Seq<char>, Seq<Seq<char>>) {
    (r.spec_name(), r.spec_fields())
}

/// The first row at or after `i` that has a cell, or the number of rows.
pub open spec fn header_row_from(rows: Seq<Seq<Seq<DomEventView>>>, i: int) -> int
    decreases rows.len() - i,
{
    if i < 0 || i >= rows.len() {
        rows.len() as int
    } else if rows[i].len() > 0 {
        i
    } else {
        header_row_from(rows, i + 1)
    }
}

/// Whether a header starts with "Name".
pub open spec fn starts_with_name(h: Seq<char>) -> bool {
    h.len() >= 4 && h[0] == 'N' && h[1] == 'a' && h[2] == 'm' && h[3] == 'e'
}

/// The first header at or after `j` that starts with "Name", or the number of headers.
pub open spec fn name_column_from(hs: Seq<Seq<char>>, j: int) -> int
    decreases hs.len() - j,
{
    if j < 0 || j >= hs.len() {
        hs.len() as int
    } else if starts_with_name(hs[j]) {
        j
    } else {
        name_column_from(hs, j + 1)
    }
}

/// The headers of a header row.
pub open spec fn row_headers(row: Seq<Seq<DomEventView>>) -> Seq<Seq<char>> {
    row.map_values(|c: Seq<DomEventView>| header_text_spec(c))
}

/// The texts of the cells of a data row.
pub open spec fn row_cols(row: Seq<Seq<DomEventView>>) -> Seq<Seq<char>> {
    row.map_values(|c: Seq<DomEventView>| cell_text_spec(c))
}

/// A data row is kept when it has more than eight cells and one of them has text.
pub open spec fn row_kept(cols: Seq<Seq<char>>) -> bool {
    cols.len() > 8 && exists|k: int| 0 <= k < cols.len() && #[trigger] cols[k].len() > 0
}

/// One text per header: the cell in that column, or nothing where the row is shorter.
pub open spec fn row_fields(cols: Seq<Seq<char>>, n: nat) -> Seq<Seq<char>> {
    Seq::new(n, |k: int| if k < cols.len() { cols[k] } else { seq![] })
}

/// The record of a kept row: the name column, and the other columns in order.
pub open spec fn record_of(cols: Seq<Seq<char>>, n: nat, name_col: int) -> (Seq<char>, Seq<Seq<char>>) {
    let f = row_fields(cols, n);
    (f[name_col], f.remove(name_col))
}

/// The records of the kept rows among `rows`, in order.
pub open spec fn records_of(rows: Seq<Seq<Seq<DomEventView>>>, n: nat, name_col: int) -> Seq<
    (Seq<char>, Seq<Seq<char>>),
>
    decreases rows.len(),
{
    if rows.len() == 0 {
        seq![]
    } else {
        let prev = records_of(rows.drop_last(), n, name_col);
        let cols = row_cols(rows.last());
        if row_kept(cols) {
            prev.push(record_of(cols, n, name_col))
        } else {
            prev
        }
    }
}

/// What reading a table gives: the first row with a cell holds the headers; the first
/// header starting with "Name" is the name column; every later row that is kept
/// becomes a record; the headers are returned without the name column.
pub open spec fn parse_table_spec(rows: Seq<Seq<Seq<DomEventView>>>) -> Result<
    (Seq<Seq<char>>, Seq<(Seq<char>, Seq<Seq<char>>)>),
    ParseErrorView,
> {
    let h = header_row_from(rows, 0);
    if h >= rows.len() {
        Err(ParseErrorView::NoHeaderRow)
    } else {
        let headers = row_headers(rows[h]);
        if headers.len() == 0 {
            Err(ParseErrorView::EmptyHeaderRow)
        } else {
            let j = name_column_from(headers, 0);
            if j >= headers.len() {
                Err(ParseErrorView::NoNameColumn(headers))
            } else {
                let recs = records_of(rows.skip(h + 1), headers.len(), j);
                if recs.len() == 0 {
                    Err(ParseErrorView::NoDataRows)
                } else {
                    Ok((headers.remove(j), recs))
                }
            }
        }
    }
}

/// A table reading result over character sequences.
pub open spec fn parse_result_view(r: Result<(Vec<String>, Vec<TrackerRecord>), ParseError>) -> Result<
    (Seq<Seq<char>>, Seq<(Seq<char>, Seq<Seq<char>>)>),
    ParseErrorView,
> {
    match r {
        Ok((h, recs)) => Ok((strings_view(h@), recs@.map_values(|r: TrackerRecord| record_view(r)))),
        Err(e) => Err(e@),
    }
}

/// Whether a header starts with "Name".
fn header_starts_with_name(h: &String) -> (r: bool)
    ensures
        r == starts_with_name(h@),
{
    let cs = chars_of(h.as_str());
    cs.len() >= 4 && cs[0] == 'N' && cs[1] == 'a' && cs[2] == 'm' && cs[3] == 'e'
}

/// The texts of the cells of a data row.
fn row_texts(row: &Vec<Vec<DomEvent>>) -> (cols: Vec<String>)
    ensures
        strings_view(cols@) == row_cols(row_view(*row)),
{
    let mut cols: Vec<String> = Vec::new();
    for k in 0..row.len()
        invariant
            strings_view(cols@) == row_cols(row_view(*row)).take(k as int),
    {
        let t = cell_text(&row[k]);
        assert(row_view(*row)[k as int] == cell_view(row@[k as int]));
        let ghost before = cols@;
        cols.push(t);
        assert(strings_view(cols@) =~= strings_view(before).push(t@));
        assert(strings_view(cols@) =~= row_cols(row_view(*row)).take(k + 1));
    }
    assert(row_cols(row_view(*row)).take(row.len() as int) =~= row_cols(row_view(*row)));
    cols
}

/// Whether a row's cell texts make it a data row.
fn keep_row(cols: &Vec<String>) -> (r: bool)
    ensures
        r == row_kept(strings_view(cols@)),
{
    assert(strings_view(cols@).len() == cols@.len());
    if cols.len() <= 8 {
        return false;
    }
    for k in 0..cols.len()
        invariant
            cols@.len() > 8,
            strings_view(cols@).len() == cols@.len(),
            forall|a: int| 0 <= a < k ==> #[trigger] strings_view(cols@)[a].len() == 0,
    {
        if !cols[k].as_str().is_empty() {
            assert(strings_view(cols@).len() == cols@.len());
            assert(strings_view(cols@)[k as int].len() > 0);
            return true;
        }
    }
    false
}

/// The record of a kept row.
fn row_record(cols: &Vec<String>, n: usize, name_col: usize) -> (r: TrackerRecord)
    requires
        name_col < n,
    ensures
        record_view(r) == record_of(strings_view(cols@), n as nat, name_col as int),
{
    let ghost want = row_fields(strings_view(cols@), n as nat);
    let mut fields: Vec<String> = Vec::new();
    for k in 0..n
        invariant
            want == row_fields(strings_view(cols@), n as nat),
            strings_view(fields@) == want.take(k as int),
    {
        let ghost before = fields@;
        if k < cols.len() {
            fields.push(cols[k].clone());
        } else {
            fields.push(String::new());
        }
        assert(strings_view(fields@) =~= strings_view(before).push(want[k as int]));
        assert(strings_view(fields@) =~= want.take(k + 1));
    }
    assert(want.take(n as int) =~= want);
    let name = fields[name_col].clone();
    let ghost before = fields@;
    fields.remove(name_col);
    assert(strings_view(fields@) =~= want.remove(name_col as int)) by {
        assert(fields@ =~= before.remove(name_col as int));
    }
    TrackerRecord::new(name, fields)
}

/// Reads a tracker table from its rows: the headers without the name column, and
/// one record per data row.
pub fn parse_table(rows: &Vec<Vec<Vec<DomEvent>>>) -> (r: Result<
    (Vec<String>, Vec<TrackerRecord>),
    ParseError,
>)
    ensures
        parse_result_view(r) == parse_table_spec(table_view(rows@)),
{
    let ghost tv = table_view(rows@);
    let mut h: usize = 0;
    while h < rows.len() && rows[h].len() == 0
        invariant
            tv == table_view(rows@),
            h <= rows@.len(),
            header_row_from(tv, 0) == header_row_from(tv, h as int),
        decreases rows@.len() - h,
    {
        assert(tv[h as int].len() == 0);
        h = h + 1;
    }
    if h >= rows.len() {
        return Err(ParseError::NoHeaderRow);
    }
    assert(tv[h as int].len() > 0);
    let header_row = &rows[h];
    let mut headers: Vec<String> = Vec::new();
    for k in 0..header_row.len()
        invariant
            h < rows@.len(),
            header_row == &rows@[h as int],
            strings_view(headers@) == row_headers(row_view(*header_row)).take(k as int),
    {
        let t = header_text(&header_row[k]);
        assert(row_view(*header_row)[k as int] == cell_view(header_row@[k as int]));
        let ghost before = headers@;
        headers.push(t);
        assert(strings_view(headers@) =~= strings_view(before).push(t@));
        assert(strings_view(headers@) =~= row_headers(row_view(*header_row)).take(k + 1));
    }
    assert(row_headers(row_view(*header_row)).take(header_row.len() as int) =~= row_headers(
        row_view(*header_row),
    ));
    assert(tv[h as int] == row_view(*header_row));
    let ghost hv = strings_view(headers@);
    if headers.len() == 0 {
        return Err(ParseError::EmptyHeaderRow);
    }
    let mut j: usize = 0;
    while j < headers.len() && !header_starts_with_name(&headers[j])
        invariant
            hv == strings_view(headers@),
            j <= headers@.len(),
            name_column_from(hv, 0) == name_column_from(hv, j as int),
        decreases headers@.len() - j,
    {
        j = j + 1;
    }
    if j >= headers.len() {
        return Err(ParseError::NoNameColumn(headers));
    }
    let n = headers.len();
    let mut records: Vec<TrackerRecord> = Vec::new();
    let ghost data = tv.skip(h + 1);
    for i in h + 1..rows.len()
        invariant
            tv == table_view(rows@),
            data == tv.skip(h + 1),
            h < i <= rows@.len(),
            j < n,
            records@.map_values(|r: TrackerRecord| record_view(r)) == records_of(
                tv.subrange(h + 1, i as int),
                n as nat,
                j as int,
            ),
    {
        let cols = row_texts(&rows[i]);
        assert(tv.subrange(h + 1, i + 1).drop_last() =~= tv.subrange(h + 1, i as int));
        assert(tv.subrange(h + 1, i + 1).last() == row_view(rows@[i as int]));
        if keep_row(&cols) {
            let rec = row_record(&cols, n, j);
            records.push(rec);
        }
        assert(records@.map_values(|r: TrackerRecord| record_view(r)) =~= records_of(
            tv.subrange(h + 1, i + 1),
            n as nat,
            j as int,
        ));
    }
    assert(tv.subrange(h + 1, rows.len() as int) =~= data);
    if records.len() == 0 {
        return Err(ParseError::NoDataRows);
    }
    let ghost before = headers@;
    headers.remove(j);
    assert(strings_view(headers@) =~= hv.remove(j as int)) by {
        assert(headers@ =~= before.remove(j as int));
    }
    Ok((headers, records))
}

/// The walks of the cells of the rows of the table on a tracker page: its `td` cells
/// of its `tr` rows.
pub open spec fn page_table_walks(html: Seq<char>) -> Seq<Seq<Seq<DomEventView>>> {
    html_table_walks(html, "tr"@, "td"@)
}

/// Reads a tracker page: its table's headers without the name column, and its records.
pub fn parse_html(html: &str) -> (r: Result<(Vec<String>, Vec<TrackerRecord>), ParseError>)
    ensures
        parse_result_view(r) == parse_table_spec(page_table_walks(html@)),
{
    proof {
        reveal_strlit("tr");
        reveal_strlit("td");
    }
    let rows = table_walks(html, "tr", "td");
    parse_table(&rows)
}

impl Tracker {
    /// Builds the tracker of `config` from its published page `html`.
    pub fn build(config: &TrackerConfig, html: &str) -> (r: Result<Tracker, ParseError>)
        ensures
            match r {
                Ok(t) => {
                    &&& t.wf()
                    &&& t.spec_name() == config.name@
                    &&& parse_table_spec(page_table_walks(html@)) == Ok::<_, ParseErrorView>(
                        (
                            t.spec_headers(),
                            t.spec_records().map_values(|rec: TrackerRecord| record_view(rec)),
                        ),
                    )
                },
                Err(e) => parse_table_spec(page_table_walks(html@)) == Err::<
                    (Seq<Seq<char>>, Seq<(Seq<char>, Seq<Seq<char>>)>),
                    _,
                >(e@),
            },
    {
        match parse_html(html) {
            Ok((headers, records)) => Ok(Tracker::from_records(config.name, headers, records)),
            Err(e) => Err(e),
        }
    }
}

/// What a result page shows: a title, a description, one (header, value) field per
/// column that has a value, a colour and a footer.
pub struct EmbedContent {
    pub title: String,
    pub description: String,
    pub fields: Vec<(String, String)>,
    pub color: u32,
    pub footer_text: &'static str,
    pub footer_icon: &'static str,
}

/// The colour of a result page.
pub const RESULT_COLOR: u32 = 0x00F55E;

/// The colour of the answer to a search that found nothing (serenity's `Color::RED`).
pub const ERROR_COLOR: u32 = 0xE74C3C;

/// A result page was asked for that does not exist.
pub struct PageOutOfBounds {
    pub page: usize,
}

/// The (header, value) pairs of the first `n` columns whose value is not blank, in order.
pub open spec fn embed_fields_spec(hs: Seq<Seq<char>>, vs: Seq<Seq<char>>, n: int) -> Seq<
    (Seq<char>, Seq<char>),
>
    decreases n,
{
    if n <= 0 {
        seq![]
    } else {
        let prev = embed_fields_spec(hs, vs, n - 1);
        if is_blank(vs[n - 1]) {
            prev
        } else {
            prev.push((hs[n - 1], vs[n - 1]))
        }
    }
}

/// A list of (header, value) fields over character sequences.
pub open spec fn fields_view(fs: Seq<(String, String)>) -> Seq<(Seq<char>, Seq<char>)> {
    fs.map_values(|f: (String, String)| (f.0@, f.1@))
}

impl Tracker {
    /// The content of result page `page`: the result's name before its first line break
    /// as title, the rest of the name as description, and each column that has a
    /// non-blank value, paired with its header.
    pub fn build_embed(&self, results: &[SearchResult<'_>], page: usize) -> (r: Result<
        EmbedContent,
        PageOutOfBounds,
    >)
        ensures
            page >= results@.len() ==> (r matches Err(e) && e.page == page),
            page < results@.len() ==> (r matches Ok(e) && {
                let res = results@[page as int];
                let vs = res.record.spec_fields();
                let hs = self.spec_headers();
                &&& e.color == RESULT_COLOR
                &&& e.footer_text == Tracker::FOOTER_TEXT
                &&& e.footer_icon == Tracker::FOOTER_ICON
                &&& e.title@ == res.name_clean@
                &&& e.description@ == match res.name_extra {
                    Some(x) => x@,
                    None => Seq::<char>::empty(),
                }
                &&& fields_view(e.fields@) == embed_fields_spec(
                    hs,
                    vs,
                    if hs.len() < vs.len() {
                        hs.len() as int
                    } else {
                        vs.len() as int
                    },
                )
            }),
    {
        if page >= results.len() {
            return Err(PageOutOfBounds { page });
        }
        let result = &results[page];
        let title = String::from_str(result.name_clean);
        let description = match result.name_extra {
            Some(x) => String::from_str(x),
            None => String::new(),
        };
        let values = result.record.fields();
        let n = if self.headers.len() < values.len() {
            self.headers.len()
        } else {
            values.len()
        };
        let ghost hs = self.spec_headers();
        let ghost vs = result.record.spec_fields();
        let mut fields: Vec<(String, String)> = Vec::new();
        for i in 0..n
            invariant
                n <= self.headers@.len(),
                n <= values@.len(),
                hs == self.headers@.map_values(|h: String| h@),
                vs == values@.map_values(|f: String| f@),
                fields_view(fields@) == embed_fields_spec(hs, vs, i as int),
        {
            assert(vs[i as int] == values@[i as int]@);
            assert(hs[i as int] == self.headers@[i as int]@);
            if !blank(values[i].as_str()) {
                let ghost before = fields@;
                fields.push((self.headers[i].clone(), values[i].clone()));
                assert(fields_view(fields@) =~= fields_view(before).push((hs[i as int], vs[i as int])));
            }
        }
        Ok(
            EmbedContent {
                title,
                description,
                fields,
                color: RESULT_COLOR,
                footer_text: Self::FOOTER_TEXT,
                footer_icon: Self::FOOTER_ICON,
            },
        )
    }
}

/// What `format!("{:?}", v)` writes for a list of strings.
pub uninterp spec fn debug_list_text(v: Seq<Seq<char>>) -> Seq<char>;

/// Formats a list of strings with `Debug`, as `["a", "b"]`. The contract claims only
/// that the text is a function of the strings.
#[verifier::external_body]
fn debug_list(v: &Vec<String>) -> (r: String)
    ensures
        r@ == debug_list_text(strings_view(v@)),
{
    format!("{:?}", v)
}

/// The explanation of a parse error.
pub open spec fn parse_error_text(e: ParseErrorView) -> Seq<char> {
    match e {
        ParseErrorView::NoHeaderRow => "no header row found, is the page returning an error page?"@,
        ParseErrorView::EmptyHeaderRow => "header row found but contained no <td> elements"@,
        ParseErrorView::NoNameColumn(h) => "no key starting with 'Name' found; headers: "@
            + debug_list_text(h),
        ParseErrorView::NoDataRows => "parsed headers but found no data rows"@,
    }
}

impl ParseError {
    /// The explanation of the error.
    pub fn message(&self) -> (r: String)
        ensures
            r@ == parse_error_text(self@),
    {
        match self {
            ParseError::NoHeaderRow => String::from_str(
                "no header row found, is the page returning an error page?",
            ),
            ParseError::EmptyHeaderRow => String::from_str(
                "header row found but contained no <td> elements",
            ),
            ParseError::NoNameColumn(h) => {
                let mut r = String::from_str("no key starting with 'Name' found; headers: ");
                let list = debug_list(h);
                r.append(list.as_str());
                r
            },
            ParseError::NoDataRows => String::from_str("parsed headers but found no data rows"),
        }
    }
}

impl PageOutOfBounds {
    /// The explanation of the error: "Index out of bounds. PAGE".
    pub fn message(&self) -> (r: String)
        ensures
            r@ == "Index out of bounds. "@ + crate::chars::decimal(self.page as nat),
    {
        let mut r = String::from_str("Index out of bounds. ");
        crate::chars::push_decimal(&mut r, self.page);
        r
    }
}

impl Tracker {
    /// Why the tracker named `tracker_name` could not be built from its page:
    /// "[NAME] failed to parse HTML: EXPLANATION".
    pub fn parse_failure_message(tracker_name: &str, e: &ParseError) -> (r: String)
        ensures
            r@ == "["@ + tracker_name@ + "] failed to parse HTML: "@ + parse_error_text(e@),
    {
        let mut r = String::from_str("[");
        r.append(tracker_name);
        r.append("] failed to parse HTML: ");
        let m = e.message();
        r.append(m.as_str());
        r
    }

    /// The answer to a search for `query` that found nothing: titled "Error", with
    /// `no_result_message` as description, no fields, the error colour and the footer.
    pub fn no_result_embed(query: &str) -> (e: EmbedContent)
        ensures
            e.title@ == "Error"@,
            e.description@ == "No result found for \""@ + query@ + "\""@,
            e.fields@.len() == 0,
            e.color == ERROR_COLOR,
            e.footer_text == Tracker::FOOTER_TEXT,
            e.footer_icon == Tracker::FOOTER_ICON,
    {
        EmbedContent {
            title: String::from_str("Error"),
            description: Self::no_result_message(query),
            fields: Vec::new(),
            color: ERROR_COLOR,
            footer_text: Self::FOOTER_TEXT,
            footer_icon: Self::FOOTER_ICON,
        }
    }
}

} // verus!
