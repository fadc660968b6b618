use vstd::prelude::*;

use crate::chars::{
    ascii_lower, ascii_upper, char_is_alphanumeric, char_is_whitespace, char_to_lowercase,
    is_ascii_char, is_blank, join_with, lemma_runs_nonempty, lemma_runs_nonempty_items, runs,
    words,
};
use crate::paging::{nav_row_spec, page_choice_spec, target_page, PageChoice};
use crate::text::{
    alphanumeric, is_closing_punct, is_quote_spec, lowercase_word, lowercase_words,
    normalize_spec, occurrences, process_line_spec, process_line_state, strip_quotes,
};
use crate::tracker::{
    embed_fields_spec, header_row_from, matching_upto, name_column_from, name_matches,
    parse_table_spec, record_of, records_of, row_cols, row_fields, row_headers, search_spec,
    ParseErrorView, Tracker, TrackerRecord,
};

verus! {

proof fn lemma_matching_same(
    recs: Seq<TrackerRecord>,
    q1: Seq<char>,
    q2: Seq<char>,
    n: int,
)
    requires
        forall|w: Seq<char>| occurrences(words(q1), w) == occurrences(words(q2), w),
    ensures
        matching_upto(recs, q1, n) == matching_upto(recs, q2, n),
    decreases n,
{
    if n > 0 {
        lemma_matching_same(recs, q1, q2, n - 1);
    }
}

/// Two queries whose normalized forms have the same words, each as often, find the
/// same records in the same order: word order does not matter to search.
pub proof fn law_search_depends_on_word_counts(
    recs: Seq<TrackerRecord>,
    q1: Seq<char>,
    q2: Seq<char>,
)
    requires
        normalize_spec(q1).len() > 0,
        normalize_spec(q2).len() > 0,
        forall|w: Seq<char>|
            occurrences(words(normalize_spec(q1)), w) == occurrences(
                words(normalize_spec(q2)),
                w,
            ),
    ensures
        search_spec(recs, q1) == search_spec(recs, q2),
{
    lemma_matching_same(recs, normalize_spec(q1), normalize_spec(q2), recs.len() as int);
}

proof fn lemma_matching_narrows(recs: Seq<TrackerRecord>, q1: Seq<char>, q2: Seq<char>, n: int)
    requires
        forall|w: Seq<char>| occurrences(words(q1), w) <= occurrences(words(q2), w),
    ensures
        forall|i: int| matching_upto(recs, q2, n).contains(i) ==> matching_upto(recs, q1, n).contains(i),
    decreases n,
{
    if n > 0 {
        lemma_matching_narrows(recs, q1, q2, n - 1);
        let x = normalize_spec(recs[n - 1].spec_name());
        if name_matches(q2, x) {
            assert(name_matches(q1, x)) by {
                assert forall|w: Seq<char>| occurrences(words(q1), w) <= occurrences(words(x), w) by {
                    assert(occurrences(words(q1), w) <= occurrences(words(q2), w));
                    assert(occurrences(words(q2), w) <= occurrences(words(x), w));
                }
            }
        }
        let m1 = matching_upto(recs, q1, n - 1);
        let m2 = matching_upto(recs, q2, n - 1);
        lemma_push_contains(m1, n - 1);
        lemma_push_contains(m2, n - 1);
    }
}

proof fn lemma_push_contains(s: Seq<int>, x: int)
    ensures
        forall|i: int| #[trigger] s.push(x).contains(i) <==> (s.contains(i) || i == x),
{
    assert forall|i: int| #[trigger] s.push(x).contains(i) <==> (s.contains(i) || i == x) by {
        if s.push(x).contains(i) {
            let k = choose|k: int| 0 <= k < s.push(x).len() && s.push(x)[k] == i;
            if k < s.len() {
                assert(s[k] == i);
            }
        }
        if s.contains(i) {
            let k = choose|k: int| 0 <= k < s.len() && s[k] == i;
            assert(s.push(x)[k] == i);
        }
        if i == x {
            assert(s.push(x)[s.len() as int] == x);
        }
    }
}

/// A query whose normalized form holds every word of another's at least as often finds
/// no record that the other does not: adding words to a query only narrows its results.
pub proof fn law_more_words_narrow_search(recs: Seq<TrackerRecord>, q1: Seq<char>, q2: Seq<char>)
    requires
        normalize_spec(q1).len() > 0,
        normalize_spec(q2).len() > 0,
        forall|w: Seq<char>|
            occurrences(words(normalize_spec(q1)), w) <= occurrences(
                words(normalize_spec(q2)),
                w,
            ),
    ensures
        forall|i: int| search_spec(recs, q2).contains(i) ==> search_spec(recs, q1).contains(i),
{
    lemma_matching_narrows(recs, normalize_spec(q1), normalize_spec(q2), recs.len() as int);
}

/// Whether the record at position `i` of `recs` has a name that matches the normalized
/// query `q`.
pub open spec fn record_matches(recs: Seq<TrackerRecord>, q: Seq<char>) -> spec_fn(int) -> bool {
    |i: int| name_matches(q, normalize_spec(recs[i].spec_name()))
}

proof fn lemma_matching_filter(recs: Seq<TrackerRecord>, q1: Seq<char>, q2: Seq<char>, n: int)
    requires
        forall|w: Seq<char>| occurrences(words(q1), w) <= occurrences(words(q2), w),
    ensures
        matching_upto(recs, q2, n) == matching_upto(recs, q1, n).filter(record_matches(recs, q2)),
    decreases n,
{
    reveal(Seq::filter);
    let f = record_matches(recs, q2);
    if n <= 0 {
        assert(matching_upto(recs, q1, n).filter(f) =~= Seq::<int>::empty());
    } else {
        lemma_matching_filter(recs, q1, q2, n - 1);
        let x = normalize_spec(recs[n - 1].spec_name());
        let m1 = matching_upto(recs, q1, n - 1);
        if name_matches(q2, x) {
            assert(name_matches(q1, x)) by {
                assert forall|w: Seq<char>| occurrences(words(q1), w) <= occurrences(words(x), w) by {
                    assert(occurrences(words(q1), w) <= occurrences(words(q2), w));
                    assert(occurrences(words(q2), w) <= occurrences(words(x), w));
                }
            }
        }
        if name_matches(q1, x) {
            assert(m1.push(n - 1).drop_last() =~= m1);
            assert(f(n - 1) == name_matches(q2, x));
        }
    }
}

/// Adding words to a query only narrows its results: the results of a query whose
/// normalized form holds every word of another's at least as often are the other's
/// results whose names match it, in the same order (none, where it has no words).
pub proof fn law_more_words_filter_search(recs: Seq<TrackerRecord>, q1: Seq<char>, q2: Seq<char>)
    requires
        normalize_spec(q1).len() > 0,
        forall|w: Seq<char>|
            occurrences(words(normalize_spec(q1)), w) <= occurrences(
                words(normalize_spec(q2)),
                w,
            ),
    ensures
        normalize_spec(q2).len() > 0 ==> search_spec(recs, q2) == search_spec(recs, q1).filter(
            record_matches(recs, normalize_spec(q2)),
        ),
        normalize_spec(q2).len() == 0 ==> search_spec(recs, q2) == Seq::<int>::empty(),
{
    lemma_matching_filter(recs, normalize_spec(q1), normalize_spec(q2), recs.len() as int);
}

proof fn lemma_matching_ordered(recs: Seq<TrackerRecord>, q: Seq<char>, n: int)
    requires
        0 <= n <= recs.len(),
    ensures
        forall|k: int|
            0 <= k < matching_upto(recs, q, n).len() ==> 0 <= #[trigger] matching_upto(recs, q, n)[k]
                < n,
        forall|a: int, b: int|
            0 <= a < b < matching_upto(recs, q, n).len() ==> matching_upto(recs, q, n)[a]
                < matching_upto(recs, q, n)[b],
    decreases n,
{
    if n > 0 {
        lemma_matching_ordered(recs, q, n - 1);
        let m = matching_upto(recs, q, n - 1);
        assert forall|k: int| 0 <= k < m.push(n - 1).len() implies 0 <= #[trigger] m.push(n - 1)[k]
            < n by {
            if k < m.len() {
                assert(m.push(n - 1)[k] == m[k]);
            }
        }
    }
}

/// Search results name records of the tracker, each once, in the order of the spreadsheet.
pub proof fn law_search_results_in_order(recs: Seq<TrackerRecord>, q: Seq<char>)
    ensures
        forall|k: int|
            0 <= k < search_spec(recs, q).len() ==> 0 <= #[trigger] search_spec(recs, q)[k]
                < recs.len(),
        forall|a: int, b: int|
            0 <= a < b < search_spec(recs, q).len() ==> search_spec(recs, q)[a] < search_spec(
                recs,
                q,
            )[b],
{
    lemma_matching_ordered(recs, normalize_spec(q), recs.len() as int);
}

/// Taking the quotes out of a text first does not change its normal form: search
/// ignores quotes.
pub proof fn law_normalize_ignores_quotes(s: Seq<char>)
    ensures
        normalize_spec(strip_quotes(s)) == normalize_spec(s),
{
    lemma_strip_quotes_idempotent(s);
}

proof fn lemma_strip_quotes_idempotent(s: Seq<char>)
    ensures
        strip_quotes(strip_quotes(s)) == strip_quotes(s),
    decreases s.len(),
{
    if s.len() > 0 {
        lemma_strip_quotes_idempotent(s.drop_last());
        let t = strip_quotes(s.drop_last());
        if !crate::text::is_quote_spec(s.last()) {
            assert(t.push(s.last()).drop_last() =~= t);
        }
    }
}

proof fn lemma_process_line_state(s: Seq<char>)
    ensures
        process_line_state(s).0.len() > 0 ==> !char_is_whitespace(process_line_state(s).0[0])
            && !char_is_whitespace(process_line_state(s).0.last()),
        forall|i: int|
            0 <= i < process_line_state(s).0.len() && char_is_whitespace(
                #[trigger] process_line_state(s).0[i],
            ) ==> process_line_state(s).0[i] == ' ',
    decreases s.len(),
{
    if s.len() > 0 {
        lemma_process_line_state(s.drop_last());
        let (out, pending) = process_line_state(s.drop_last());
        let c = s.last();
        let o2 = process_line_state(s).0;
        assert forall|i: int| 0 <= i < o2.len() && char_is_whitespace(#[trigger] o2[i]) implies o2[i]
            == ' ' by {
            if i < out.len() {
                assert(o2[i] == out[i]);
            }
        }
        if o2.len() > 0 && out.len() > 0 {
            assert(o2[0] == out[0]);
        }
    }
}

/// A processed line neither starts nor ends with whitespace, and the only whitespace
/// it holds is single spaces it put between words.
pub proof fn law_process_line_trims(s: Seq<char>)
    ensures
        process_line_spec(s).len() > 0 ==> !char_is_whitespace(process_line_spec(s)[0])
            && !char_is_whitespace(process_line_spec(s).last()),
        forall|i: int|
            0 <= i < process_line_spec(s).len() && char_is_whitespace(
                #[trigger] process_line_spec(s)[i],
            ) ==> process_line_spec(s)[i] == ' ',
{
    lemma_process_line_state(s);
}

proof fn lemma_records_width(
    rows: Seq<Seq<Seq<crate::html::DomEventView>>>,
    n: nat,
    name_col: int,
)
    requires
        0 <= name_col < n,
    ensures
        forall|k: int|
            0 <= k < records_of(rows, n, name_col).len() ==> (#[trigger] records_of(
                rows,
                n,
                name_col,
            )[k]).1.len() == n - 1,
    decreases rows.len(),
{
    if rows.len() > 0 {
        lemma_records_width(rows.drop_last(), n, name_col);
        let prev = records_of(rows.drop_last(), n, name_col);
        let cols = crate::tracker::row_cols(rows.last());
        let r = record_of(cols, n, name_col);
        assert(row_fields(cols, n).len() == n);
        assert forall|k: int| 0 <= k < prev.push(r).len() implies (#[trigger] prev.push(r)[k]).1.len()
            == n - 1 by {
            if k < prev.len() {
                assert(prev.push(r)[k] == prev[k]);
            }
        }
    }
}

/// Every record read from a table has one field for each returned header.
pub proof fn law_records_have_one_field_per_header(rows: Seq<Seq<Seq<crate::html::DomEventView>>>)
    ensures
        parse_table_spec(rows) matches Ok((hs, recs)) ==> forall|k: int|
            0 <= k < recs.len() ==> (#[trigger] recs[k]).1.len() == hs.len(),
{
    let h = crate::tracker::header_row_from(rows, 0);
    if h < rows.len() {
        let headers = crate::tracker::row_headers(rows[h]);
        let j = crate::tracker::name_column_from(headers, 0);
        if headers.len() > 0 && 0 <= j < headers.len() {
            lemma_records_width(rows.skip(h + 1), headers.len(), j);
        }
        lemma_name_column_range(headers, 0);
    }
}

proof fn lemma_name_column_range(hs: Seq<Seq<char>>, j: int)
    requires
        0 <= j,
    ensures
        j <= crate::tracker::name_column_from(hs, j) || crate::tracker::name_column_from(hs, j)
            == hs.len(),
        crate::tracker::name_column_from(hs, j) <= hs.len(),
    decreases hs.len() - j,
{
    if j < hs.len() {
        lemma_name_column_range(hs, j + 1);
    }
}

/// The fields a result page shows all have a value that is not blank.
pub proof fn law_embed_fields_not_blank(hs: Seq<Seq<char>>, vs: Seq<Seq<char>>, n: int)
    ensures
        forall|k: int|
            0 <= k < embed_fields_spec(hs, vs, n).len() ==> !is_blank(
                (#[trigger] embed_fields_spec(hs, vs, n)[k]).1,
            ),
    decreases n,
{
    if n > 0 {
        law_embed_fields_not_blank(hs, vs, n - 1);
        let prev = embed_fields_spec(hs, vs, n - 1);
        assert forall|k: int| 0 <= k < prev.push((hs[n - 1], vs[n - 1])).len() && !is_blank(
            vs[n - 1],
        ) implies !is_blank((#[trigger] prev.push((hs[n - 1], vs[n - 1]))[k]).1) by {
            if k < prev.len() {
                assert(prev.push((hs[n - 1], vs[n - 1]))[k] == prev[k]);
            }
        }
    }
}

/// A page chosen in the page dialog is always one of the pages.
pub proof fn law_chosen_page_exists(value: Seq<char>, total_pages: nat)
    ensures
        page_choice_spec(value, total_pages) matches PageChoice::Chosen(p) ==> p < total_pages,
{
}

/// Every navigation button leads to one of the pages.
pub proof fn law_navigation_stays_in_range(id: Seq<char>, page: nat, total_pages: nat)
    requires
        page < total_pages,
    ensures
        target_page(id, page, total_pages) < total_pages,
{
}

/// Next and then Back return to the page one started from, unless it was the last page.
pub proof fn law_next_then_back(page: nat, total_pages: nat)
    requires
        page + 1 < total_pages,
    ensures
        target_page(
            Tracker::BTN_PREV@,
            target_page(Tracker::BTN_NEXT@, page, total_pages),
            total_pages,
        ) == page,
{
    reveal_strlit("page_prev");
    reveal_strlit("page_next");
    reveal_strlit("page_first");
    assert(Tracker::BTN_NEXT@ != Tracker::BTN_FIRST@ && Tracker::BTN_NEXT@ != Tracker::BTN_PREV@)
        by {
        assert(Tracker::BTN_NEXT@[5] != Tracker::BTN_FIRST@[5]);
        assert(Tracker::BTN_NEXT@[5] != Tracker::BTN_PREV@[5]);
    }
    assert(Tracker::BTN_PREV@ != Tracker::BTN_FIRST@) by {
        assert(Tracker::BTN_PREV@[5] != Tracker::BTN_FIRST@[5]);
    }
}

/// Back and then Next return to the page one started from, unless it was the first page.
pub proof fn law_back_then_next(page: nat, total_pages: nat)
    requires
        0 < page < total_pages,
    ensures
        target_page(
            Tracker::BTN_NEXT@,
            target_page(Tracker::BTN_PREV@, page, total_pages),
            total_pages,
        ) == page,
{
    reveal_strlit("page_prev");
    reveal_strlit("page_next");
    reveal_strlit("page_first");
    assert(Tracker::BTN_NEXT@ != Tracker::BTN_FIRST@ && Tracker::BTN_NEXT@ != Tracker::BTN_PREV@)
        by {
        assert(Tracker::BTN_NEXT@[5] != Tracker::BTN_FIRST@[5]);
        assert(Tracker::BTN_NEXT@[5] != Tracker::BTN_PREV@[5]);
    }
    assert(Tracker::BTN_PREV@ != Tracker::BTN_FIRST@) by {
        assert(Tracker::BTN_PREV@[5] != Tracker::BTN_FIRST@[5]);
    }
}

/// Searching for a record's own name finds that record, whenever the name has a word.
pub proof fn law_search_finds_own_name(recs: Seq<TrackerRecord>, i: int)
    requires
        0 <= i < recs.len(),
        normalize_spec(recs[i].spec_name()).len() > 0,
    ensures
        search_spec(recs, recs[i].spec_name()).contains(i),
{
    let q = normalize_spec(recs[i].spec_name());
    lemma_matching_contains(recs, q, i, recs.len() as int);
}

proof fn lemma_matching_contains(recs: Seq<TrackerRecord>, q: Seq<char>, i: int, n: int)
    requires
        0 <= i < n <= recs.len(),
        name_matches(q, normalize_spec(recs[i].spec_name())),
    ensures
        matching_upto(recs, q, n).contains(i),
    decreases n,
{
    let m = matching_upto(recs, q, n - 1);
    lemma_push_contains(m, n - 1);
    if i < n - 1 {
        lemma_matching_contains(recs, q, i, n - 1);
    }
}

/// The words of `ws` joined with single spaces, except that no space goes before a word
/// that starts with closing punctuation.
pub open spec fn join_words_punct(ws: Seq<Seq<char>>) -> Seq<char>
    decreases ws.len(),
{
    if ws.len() == 0 {
        seq![]
    } else if ws.len() == 1 {
        ws[0]
    } else {
        join_words_punct(ws.drop_last()) + (if is_closing_punct(ws.last()[0]) {
            seq![]
        } else {
            seq![' ']
        }) + ws.last()
    }
}

proof fn lemma_process_line_words(s: Seq<char>)
    requires
        s.len() == 0 || !char_is_whitespace(s[0]),
    ensures
        process_line_state(s).0 == join_words_punct(words(s)),
        process_line_state(s).1 == (s.len() > 0 && char_is_whitespace(s.last())),
        (process_line_state(s).0.len() > 0) == (s.len() > 0),
        s.len() > 0 ==> words(s).len() > 0,
    decreases s.len(),
{
    if s.len() > 0 {
        let t = s.drop_last();
        if t.len() > 0 {
            assert(t[0] == s[0]);
        }
        lemma_process_line_words(t);
        let p = |c: char| !char_is_whitespace(c);
        let ws = words(t);
        let c = s.last();
        let (out, pending) = process_line_state(t);
        lemma_runs_nonempty_items(t, p);
        if !char_is_whitespace(c) {
            if t.len() == 0 {
                assert(words(s) == ws.push(seq![c]));
                assert(ws.len() == 0);
            } else if pending {
                assert(words(s) == ws.push(seq![c]));
                assert(ws.push(seq![c]).drop_last() =~= ws);
            } else {
                lemma_runs_nonempty(t, p);
                assert(words(s) == ws.drop_last().push(ws.last().push(c)));
                lemma_join_punct_extend(ws, c);
            }
        } else {
            if t.len() > 0 && !char_is_whitespace(t.last()) {
                lemma_runs_nonempty(t, p);
            }
        }
    }
}

proof fn lemma_join_punct_extend(ws: Seq<Seq<char>>, c: char)
    requires
        ws.len() > 0,
        ws.last().len() > 0,
    ensures
        join_words_punct(ws.drop_last().push(ws.last().push(c))) == join_words_punct(ws).push(c),
{
    let vs = ws.drop_last().push(ws.last().push(c));
    assert(vs.drop_last() =~= ws.drop_last());
    assert(vs.last()[0] == ws.last()[0]);
    if ws.len() == 1 {
        assert(vs[0] == ws[0].push(c));
    } else {
        assert(join_words_punct(vs) =~= join_words_punct(ws).push(c));
    }
}

/// A line that does not start with whitespace is processed into its words, joined by
/// single spaces except before a word that starts with closing punctuation.
pub proof fn law_process_line_joins_words(s: Seq<char>)
    requires
        s.len() == 0 || !char_is_whitespace(s[0]),
    ensures
        process_line_spec(s) == join_words_punct(words(s)),
{
    lemma_process_line_words(s);
}

proof fn lemma_process_line_spacing(s: Seq<char>)
    ensures
        ({
            let out = process_line_state(s).0;
            &&& out.len() > 0 ==> !char_is_whitespace(out[0]) && !char_is_whitespace(out.last())
            &&& forall|i: int|
                0 <= i < out.len() && char_is_whitespace(#[trigger] out[i]) ==> {
                    &&& out[i] == ' '
                    &&& i + 1 < out.len()
                    &&& !char_is_whitespace(out[i + 1])
                    &&& !is_closing_punct(out[i + 1])
                }
        }),
    decreases s.len(),
{
    if s.len() > 0 {
        lemma_process_line_spacing(s.drop_last());
        let (out, pending) = process_line_state(s.drop_last());
        let o2 = process_line_state(s).0;
        assert forall|i: int| 0 <= i < o2.len() && char_is_whitespace(#[trigger] o2[i]) implies {
            &&& o2[i] == ' '
            &&& i + 1 < o2.len()
            &&& !char_is_whitespace(o2[i + 1])
            &&& !is_closing_punct(o2[i + 1])
        } by {
            if i < out.len() {
                assert(o2[i] == out[i]);
                if i + 1 < out.len() {
                    assert(o2[i + 1] == out[i + 1]);
                }
            }
        }
        if o2.len() > 0 && out.len() > 0 {
            assert(o2[0] == out[0]);
        }
    }
}

/// A line shaped as `process_line` leaves it (no whitespace at its start, every
/// whitespace character a space followed by a character that is neither whitespace nor
/// closing punctuation) is read back as itself, with a pending space if it ends in one.
proof fn lemma_process_line_shaped(t: Seq<char>)
    requires
        t.len() == 0 || !char_is_whitespace(t[0]),
        forall|i: int|
            0 <= i < t.len() && char_is_whitespace(#[trigger] t[i]) ==> t[i] == ' ' && (i + 1
                < t.len() ==> !char_is_whitespace(t[i + 1]) && !is_closing_punct(t[i + 1])),
    ensures
        process_line_state(t) == if t.len() > 0 && char_is_whitespace(t.last()) {
            (t.drop_last(), true)
        } else {
            (t, false)
        },
    decreases t.len(),
{
    if t.len() > 0 {
        let u = t.drop_last();
        assert forall|i: int|
            0 <= i < u.len() && char_is_whitespace(#[trigger] u[i]) implies u[i] == ' ' && (i + 1
                < u.len() ==> !char_is_whitespace(u[i + 1]) && !is_closing_punct(u[i + 1])) by {
            assert(u[i] == t[i]);
            if i + 1 < u.len() {
                assert(u[i + 1] == t[i + 1]);
            }
        }
        if u.len() > 0 {
            assert(u[0] == t[0]);
        }
        lemma_process_line_shaped(u);
        let c = t.last();
        if u.len() > 0 && char_is_whitespace(u.last()) {
            assert(t[u.len() - 1] == u.last());
            assert(u.drop_last().len() > 0);
            assert(u.drop_last()[0] == t[0]);
            assert(u.drop_last().push(' ').push(c) =~= t);
        } else {
            assert(u.push(c) =~= t);
        }
    }
}

/// Processing a processed line again changes nothing.
pub proof fn law_process_line_idempotent(s: Seq<char>)
    ensures
        process_line_spec(process_line_spec(s)) == process_line_spec(s),
{
    lemma_process_line_spacing(s);
    let o = process_line_spec(s);
    lemma_process_line_shaped(o);
}

/// Changing the ASCII case of a character changes neither whether it is a quote, nor
/// whether it is alphanumeric, nor what it lowercases to.
proof fn lemma_ascii_case_char(c: char)
    ensures
        is_quote_spec(ascii_upper(c)) == is_quote_spec(c),
        char_is_alphanumeric(ascii_upper(c)) == char_is_alphanumeric(c),
        char_to_lowercase(ascii_upper(c)) == char_to_lowercase(c),
        is_quote_spec(ascii_lower(c)) == is_quote_spec(c),
        char_is_alphanumeric(ascii_lower(c)) == char_is_alphanumeric(c),
        char_to_lowercase(ascii_lower(c)) == char_to_lowercase(c),
{
}

/// Whether mapping characters through `g` keeps what normalization reads of each: being a
/// quote, being alphanumeric, and the lowercase form.
spec fn keeps_search_reading(g: spec_fn(char) -> char) -> bool {
    forall|c: char|
        #![trigger g(c)]
        is_quote_spec(g(c)) == is_quote_spec(c) && char_is_alphanumeric(g(c))
            == char_is_alphanumeric(c) && char_to_lowercase(g(c)) == char_to_lowercase(c)
}

proof fn lemma_strip_quotes_map(s: Seq<char>, g: spec_fn(char) -> char)
    requires
        keeps_search_reading(g),
    ensures
        strip_quotes(s.map_values(g)) == strip_quotes(s).map_values(g),
    decreases s.len(),
{
    if s.len() > 0 {
        let m = s.map_values(g);
        assert(m.drop_last() =~= s.drop_last().map_values(g));
        assert(m.last() == g(s.last()));
        lemma_strip_quotes_map(s.drop_last(), g);
        if !is_quote_spec(s.last()) {
            assert(strip_quotes(s.drop_last()).push(s.last()).map_values(g) =~= strip_quotes(
                s.drop_last(),
            ).map_values(g).push(g(s.last())));
        }
    }
}

proof fn lemma_runs_map(t: Seq<char>, g: spec_fn(char) -> char)
    requires
        keeps_search_reading(g),
    ensures
        runs(t.map_values(g), alphanumeric()) == runs(t, alphanumeric()).map_values(
            |w: Seq<char>| w.map_values(g),
        ),
    decreases t.len(),
{
    let p = alphanumeric();
    let gw = |w: Seq<char>| w.map_values(g);
    if t.len() > 0 {
        let m = t.map_values(g);
        assert(m.drop_last() =~= t.drop_last().map_values(g));
        lemma_runs_map(t.drop_last(), g);
        let prev = runs(t.drop_last(), p);
        let c = t.last();
        assert(m.last() == g(c));
        if t.len() >= 2 {
            assert(m[m.len() - 2] == g(t[t.len() - 2]));
        }
        if p(c) && t.len() >= 2 && p(t[t.len() - 2]) {
            lemma_runs_nonempty(t.drop_last(), p);
            let r = prev.drop_last().push(prev.last().push(c));
            let pm = prev.map_values(gw);
            assert(prev.last().push(c).map_values(g) =~= prev.last().map_values(g).push(g(c)));
            assert(pm.drop_last().push(pm.last().push(g(c))) =~= r.map_values(gw));
        } else if p(c) {
            assert(seq![c].map_values(g) =~= seq![g(c)]);
            assert(prev.map_values(gw).push(seq![g(c)]) =~= prev.push(seq![c]).map_values(gw));
        }
    }
}

proof fn lemma_lowercase_word_map(w: Seq<char>, g: spec_fn(char) -> char)
    requires
        keeps_search_reading(g),
    ensures
        lowercase_word(w.map_values(g)) == lowercase_word(w),
    decreases w.len(),
{
    if w.len() > 0 {
        let m = w.map_values(g);
        assert(m.drop_last() =~= w.drop_last().map_values(g));
        assert(m.last() == g(w.last()));
        lemma_lowercase_word_map(w.drop_last(), g);
    }
}

proof fn lemma_normalize_map(s: Seq<char>, g: spec_fn(char) -> char)
    requires
        keeps_search_reading(g),
    ensures
        normalize_spec(s.map_values(g)) == normalize_spec(s),
{
    let p = alphanumeric();
    let gw = |w: Seq<char>| w.map_values(g);
    lemma_strip_quotes_map(s, g);
    let f = strip_quotes(s);
    lemma_runs_map(f, g);
    let rs = runs(f, p);
    let a = lowercase_words(rs.map_values(gw));
    let b = lowercase_words(rs);
    assert forall|i: int| 0 <= i < a.len() implies a[i] == b[i] by {
        lemma_lowercase_word_map(rs[i], g);
    }
    assert(a =~= b);
}

/// Changing the ASCII case of any letters of the input leaves the normal form unchanged.
pub proof fn law_normalize_ignores_ascii_case(s: Seq<char>)
    ensures
        normalize_spec(s.map_values(|c: char| ascii_upper(c))) == normalize_spec(s),
        normalize_spec(s.map_values(|c: char| ascii_lower(c))) == normalize_spec(s),
{
    let up = |c: char| ascii_upper(c);
    let low = |c: char| ascii_lower(c);
    assert forall|c: char| #![trigger up(c)] #![trigger low(c)]
        is_quote_spec(up(c)) == is_quote_spec(c) && char_is_alphanumeric(up(c))
            == char_is_alphanumeric(c) && char_to_lowercase(up(c)) == char_to_lowercase(c)
            && is_quote_spec(low(c)) == is_quote_spec(c) && char_is_alphanumeric(low(c))
            == char_is_alphanumeric(c) && char_to_lowercase(low(c)) == char_to_lowercase(c) by {
        lemma_ascii_case_char(c);
    }
    lemma_normalize_map(s, up);
    lemma_normalize_map(s, low);
}

/// Whether `w` is a nonempty word of ASCII letters and digits.
spec fn ascii_alnum_word(w: Seq<char>) -> bool {
    &&& w.len() > 0
    &&& forall|j: int|
        0 <= j < w.len() ==> is_ascii_char(#[trigger] w[j]) && char_is_alphanumeric(w[j])
}

/// Whether `w` is a nonempty word of ASCII letters and digits with no capitals.
spec fn lower_ascii_word(w: Seq<char>) -> bool {
    &&& ascii_alnum_word(w)
    &&& forall|j: int| 0 <= j < w.len() ==> ascii_lower(#[trigger] w[j]) == w[j]
}

proof fn lemma_strip_quotes_ascii(s: Seq<char>)
    requires
        forall|i: int| 0 <= i < s.len() ==> is_ascii_char(#[trigger] s[i]),
    ensures
        forall|j: int|
            0 <= j < strip_quotes(s).len() ==> is_ascii_char(#[trigger] strip_quotes(s)[j]),
    decreases s.len(),
{
    if s.len() > 0 {
        let u = s.drop_last();
        assert forall|i: int| 0 <= i < u.len() implies is_ascii_char(#[trigger] u[i]) by {
            assert(u[i] == s[i]);
        }
        lemma_strip_quotes_ascii(u);
        assert(is_ascii_char(s[s.len() - 1]));
        let r = strip_quotes(s);
        let q = strip_quotes(u);
        assert forall|j: int| 0 <= j < r.len() implies is_ascii_char(#[trigger] r[j]) by {
            if j < q.len() {
                assert(r[j] == q[j]);
            }
        }
    }
}

proof fn lemma_runs_ascii(t: Seq<char>)
    requires
        forall|i: int| 0 <= i < t.len() ==> is_ascii_char(#[trigger] t[i]),
    ensures
        forall|i: int|
            0 <= i < runs(t, alphanumeric()).len() ==> ascii_alnum_word(
                #[trigger] runs(t, alphanumeric())[i],
            ),
    decreases t.len(),
{
    let p = alphanumeric();
    if t.len() > 0 {
        let u = t.drop_last();
        assert forall|i: int| 0 <= i < u.len() implies is_ascii_char(#[trigger] u[i]) by {
            assert(u[i] == t[i]);
        }
        lemma_runs_ascii(u);
        let prev = runs(u, p);
        let c = t.last();
        assert(is_ascii_char(t[t.len() - 1]));
        if p(c) && t.len() >= 2 && p(t[t.len() - 2]) {
            lemma_runs_nonempty(u, p);
            let w = prev.last().push(c);
            assert(ascii_alnum_word(prev[prev.len() - 1]));
            assert forall|j: int| 0 <= j < w.len() implies is_ascii_char(#[trigger] w[j])
                && char_is_alphanumeric(w[j]) by {
                if j < w.len() - 1 {
                    assert(w[j] == prev.last()[j]);
                }
            }
            let r = prev.drop_last().push(w);
            assert forall|i: int| 0 <= i < r.len() implies ascii_alnum_word(#[trigger] r[i]) by {
                if i < r.len() - 1 {
                    assert(r[i] == prev[i]);
                }
            }
        } else if p(c) {
            let r = prev.push(seq![c]);
            assert forall|i: int| 0 <= i < r.len() implies ascii_alnum_word(#[trigger] r[i]) by {
                if i < r.len() - 1 {
                    assert(r[i] == prev[i]);
                } else {
                    assert(r[i] == seq![c]);
                }
            }
        }
    }
}

proof fn lemma_lowercase_ascii_word(w: Seq<char>)
    requires
        ascii_alnum_word(w),
    ensures
        lower_ascii_word(lowercase_word(w)),
        lowercase_word(lowercase_word(w)) == lowercase_word(w),
{
    lemma_lowercase_word_ascii(w);
    let l = lowercase_word(w);
    assert forall|j: int| 0 <= j < l.len() implies is_ascii_char(#[trigger] l[j])
        && char_is_alphanumeric(l[j]) && ascii_lower(l[j]) == l[j] by {
        lemma_ascii_case_char(w[j]);
    }
    lemma_lowercase_word_ascii(l);
    assert(l.map_values(|c: char| ascii_lower(c)) =~= l);
}

proof fn lemma_lowercase_word_ascii(w: Seq<char>)
    requires
        forall|j: int| 0 <= j < w.len() ==> is_ascii_char(#[trigger] w[j]),
    ensures
        lowercase_word(w) == w.map_values(|c: char| ascii_lower(c)),
    decreases w.len(),
{
    if w.len() > 0 {
        let u = w.drop_last();
        assert forall|j: int| 0 <= j < u.len() implies is_ascii_char(#[trigger] u[j]) by {
            assert(u[j] == w[j]);
        }
        lemma_lowercase_word_ascii(u);
        assert(is_ascii_char(w[w.len() - 1]));
        assert(u.map_values(|c: char| ascii_lower(c)) + seq![ascii_lower(w.last())]
            =~= w.map_values(|c: char| ascii_lower(c)));
    }
}

proof fn lemma_strip_quotes_append(a: Seq<char>, b: Seq<char>)
    ensures
        strip_quotes(a + b) == strip_quotes(a) + strip_quotes(b),
    decreases b.len(),
{
    if b.len() == 0 {
        assert(a + b =~= a);
        assert(strip_quotes(a) + strip_quotes(b) =~= strip_quotes(a));
    } else {
        lemma_strip_quotes_append(a, b.drop_last());
        assert((a + b).drop_last() =~= a + b.drop_last());
        assert((a + b).last() == b.last());
        if !is_quote_spec(b.last()) {
            assert(strip_quotes(a) + strip_quotes(b.drop_last()).push(b.last()) =~= (strip_quotes(
                a,
            ) + strip_quotes(b.drop_last())).push(b.last()));
        }
    }
}

proof fn lemma_strip_quotes_plain(w: Seq<char>)
    requires
        forall|j: int| 0 <= j < w.len() ==> !is_quote_spec(#[trigger] w[j]),
    ensures
        strip_quotes(w) == w,
    decreases w.len(),
{
    if w.len() > 0 {
        let u = w.drop_last();
        assert forall|j: int| 0 <= j < u.len() implies !is_quote_spec(#[trigger] u[j]) by {
            assert(u[j] == w[j]);
        }
        lemma_strip_quotes_plain(u);
        assert(!is_quote_spec(w[w.len() - 1]));
        assert(u.push(w.last()) =~= w);
    }
}

proof fn lemma_join_plain(ws: Seq<Seq<char>>)
    requires
        forall|i: int| 0 <= i < ws.len() ==> lower_ascii_word(#[trigger] ws[i]),
    ensures
        strip_quotes(join_with(ws, seq![' '])) == join_with(ws, seq![' ']),
        runs(join_with(ws, seq![' ']), alphanumeric()) == ws,
    decreases ws.len(),
{
    let p = alphanumeric();
    if ws.len() > 0 {
        let w = ws.last();
        assert(lower_ascii_word(ws[ws.len() - 1]));
        assert forall|j: int| 0 <= j < w.len() implies !is_quote_spec(#[trigger] w[j]) by {
            assert(is_ascii_char(w[j]) && char_is_alphanumeric(w[j]));
        }
        lemma_strip_quotes_plain(w);
        if ws.len() == 1 {
            lemma_runs_append_word(seq![], w);
            assert(seq![] + w =~= w);
            assert(runs(Seq::<char>::empty(), p) =~= Seq::<Seq<char>>::empty());
            assert(ws =~= seq![w]);
        } else {
            let u = ws.drop_last();
            assert forall|i: int| 0 <= i < u.len() implies lower_ascii_word(#[trigger] u[i]) by {
                assert(u[i] == ws[i]);
            }
            lemma_join_plain(u);
            let a = join_with(u, seq![' ']) + seq![' '];
            lemma_strip_quotes_append(join_with(u, seq![' ']), seq![' ']);
            lemma_strip_quotes_append(a, w);
            assert(strip_quotes(seq![' ']) == seq![' ']) by {
                assert(!is_quote_spec(seq![' '][0]));
                lemma_strip_quotes_plain(seq![' ']);
            }
            assert(a.drop_last() =~= join_with(u, seq![' ']));
            assert(a.last() == ' ');
            assert(runs(a, p) == runs(join_with(u, seq![' ']), p));
            lemma_runs_append_word(a, w);
            assert(u.push(w) =~= ws);
        }
    }
}

proof fn lemma_runs_append_word(a: Seq<char>, w: Seq<char>)
    requires
        ascii_alnum_word(w),
        a.len() == 0 || !char_is_alphanumeric(a.last()),
    ensures
        runs(a + w, alphanumeric()) == runs(a, alphanumeric()).push(w),
    decreases w.len(),
{
    let p = alphanumeric();
    let t = a + w;
    let c = w.last();
    assert(char_is_alphanumeric(w[w.len() - 1]));
    if w.len() == 1 {
        assert(t.drop_last() =~= a);
        assert(t.last() == c);
        if a.len() > 0 {
            assert(t[t.len() - 2] == a.last());
        }
        assert(w =~= seq![c]);
    } else {
        let v = w.drop_last();
        assert forall|j: int| 0 <= j < v.len() implies is_ascii_char(#[trigger] v[j])
            && char_is_alphanumeric(v[j]) by {
            assert(v[j] == w[j]);
        }
        lemma_runs_append_word(a, v);
        assert(t.drop_last() =~= a + v);
        assert(t[t.len() - 2] == w[w.len() - 2]);
        assert(char_is_alphanumeric(w[w.len() - 2]));
        let prev = runs(a, p).push(v);
        assert(v.push(c) =~= w);
        assert(prev.drop_last().push(prev.last().push(c)) =~= runs(a, p).push(w));
    }
}

/// Normalizing ASCII text twice gives what normalizing it once gives.
pub proof fn law_normalize_idempotent_on_ascii(s: Seq<char>)
    requires
        forall|i: int| 0 <= i < s.len() ==> is_ascii_char(#[trigger] s[i]),
    ensures
        normalize_spec(normalize_spec(s)) == normalize_spec(s),
{
    let p = alphanumeric();
    lemma_strip_quotes_ascii(s);
    let f = strip_quotes(s);
    lemma_runs_ascii(f);
    let rs = runs(f, p);
    let ws = lowercase_words(rs);
    assert forall|i: int| 0 <= i < ws.len() implies lower_ascii_word(#[trigger] ws[i]) by {
        lemma_lowercase_ascii_word(rs[i]);
    }
    lemma_join_plain(ws);
    assert forall|i: int| 0 <= i < ws.len() implies #[trigger] lowercase_word(ws[i]) == ws[i] by {
        lemma_lowercase_ascii_word(rs[i]);
    }
    assert(lowercase_words(ws) =~= ws);
}

/// Whether `t` is made of lowercase ASCII letters and digits in words separated by single
/// spaces, with no space at either end.
spec fn spaced_lower_ascii(t: Seq<char>) -> bool {
    &&& forall|k: int|
        0 <= k < t.len() ==> #[trigger] t[k] == ' ' || (is_ascii_char(t[k])
            && char_is_alphanumeric(t[k]) && ascii_lower(t[k]) == t[k])
    &&& t.len() > 0 ==> t[0] != ' ' && t.last() != ' '
    &&& forall|k: int| 0 <= k < t.len() - 1 && #[trigger] t[k] == ' ' ==> t[k + 1] != ' '
}

proof fn lemma_join_form(ws: Seq<Seq<char>>)
    requires
        forall|i: int| 0 <= i < ws.len() ==> lower_ascii_word(#[trigger] ws[i]),
    ensures
        spaced_lower_ascii(join_with(ws, seq![' '])),
        ws.len() > 0 ==> join_with(ws, seq![' ']).len() > 0,
    decreases ws.len(),
{
    if ws.len() > 0 {
        let w = ws.last();
        assert(lower_ascii_word(ws[ws.len() - 1]));
        assert(w[0] != ' ') by {
            assert(char_is_alphanumeric(w[0]));
        }
        assert(w.last() != ' ') by {
            assert(char_is_alphanumeric(w[w.len() - 1]));
        }
        if ws.len() == 1 {
            let t = join_with(ws, seq![' ']);
            assert(t == w);
            assert forall|k: int| 0 <= k < t.len() - 1 && #[trigger] t[k] == ' ' implies t[k + 1]
                != ' ' by {
                assert(char_is_alphanumeric(w[k]));
            }
        } else {
            let u = ws.drop_last();
            assert forall|i: int| 0 <= i < u.len() implies lower_ascii_word(#[trigger] u[i]) by {
                assert(u[i] == ws[i]);
            }
            lemma_join_form(u);
            let j = join_with(u, seq![' ']);
            let t = join_with(ws, seq![' ']);
            assert(t == j + seq![' '] + w);
            let n = j.len() as int;
            assert forall|k: int| 0 <= k < t.len() implies #[trigger] t[k] == ' ' || (
            is_ascii_char(t[k]) && char_is_alphanumeric(t[k]) && ascii_lower(t[k]) == t[k]) by {
                if k < n {
                    assert(t[k] == j[k]);
                } else if k > n {
                    assert(t[k] == w[k - n - 1]);
                }
            }
            assert(t[0] == j[0]);
            assert(t.last() == w.last());
            assert forall|k: int| 0 <= k < t.len() - 1 && #[trigger] t[k] == ' ' implies t[k + 1]
                != ' ' by {
                if k < n - 1 {
                    assert(t[k] == j[k]);
                    assert(t[k + 1] == j[k + 1]);
                } else if k == n - 1 {
                    assert(t[k] == j.last());
                } else if k == n {
                    assert(t[k + 1] == w[0]);
                } else {
                    assert(t[k] == w[k - n - 1]);
                    assert(char_is_alphanumeric(w[k - n - 1]));
                }
            }
        }
    }
}

/// For ASCII input, the normal form is made of lowercase ASCII letters and digits in
/// words separated by single spaces, with no space at either end.
pub proof fn law_normalize_form_on_ascii(s: Seq<char>)
    requires
        forall|i: int| 0 <= i < s.len() ==> is_ascii_char(#[trigger] s[i]),
    ensures
        forall|k: int|
            0 <= k < normalize_spec(s).len() ==> #[trigger] normalize_spec(s)[k] == ' ' || (
            'a' <= normalize_spec(s)[k] <= 'z') || ('0' <= normalize_spec(s)[k] <= '9'),
        normalize_spec(s).len() > 0 ==> normalize_spec(s)[0] != ' ' && normalize_spec(s).last()
            != ' ',
        forall|k: int|
            0 <= k < normalize_spec(s).len() - 1 && #[trigger] normalize_spec(s)[k] == ' '
                ==> normalize_spec(s)[k + 1] != ' ',
{
    let p = alphanumeric();
    lemma_strip_quotes_ascii(s);
    let f = strip_quotes(s);
    lemma_runs_ascii(f);
    let rs = runs(f, p);
    let ws = lowercase_words(rs);
    assert forall|i: int| 0 <= i < ws.len() implies lower_ascii_word(#[trigger] ws[i]) by {
        lemma_lowercase_ascii_word(rs[i]);
    }
    lemma_join_form(ws);
    let t = normalize_spec(s);
    assert forall|k: int| 0 <= k < t.len() implies #[trigger] t[k] == ' ' || ('a' <= t[k] <= 'z')
        || ('0' <= t[k] <= '9') by {
        assert(t[k] == ' ' || (is_ascii_char(t[k]) && char_is_alphanumeric(t[k]) && ascii_lower(
            t[k],
        ) == t[k]));
    }
}

/// What each navigation button leads to: First to the first page, Last to the last,
/// Next one page forward and Back one page back (each staying put at its end of the
/// list).
pub proof fn law_buttons_reach_their_pages(page: nat, total_pages: nat)
    requires
        page < total_pages,
    ensures
        target_page("page_first"@, page, total_pages) == 0,
        target_page("page_last"@, page, total_pages) == total_pages - 1,
        page + 1 < total_pages ==> target_page("page_next"@, page, total_pages) == page + 1,
        page + 1 == total_pages ==> target_page("page_next"@, page, total_pages) == page,
        page > 0 ==> target_page("page_prev"@, page, total_pages) == page - 1,
        page == 0 ==> target_page("page_prev"@, page, total_pages) == 0,
{
    reveal_strlit("page_prev");
    reveal_strlit("page_next");
    reveal_strlit("page_first");
    reveal_strlit("page_last");
    assert("page_last"@[5] == 'l' && "page_first"@[5] == 'f');
    assert("page_last"@[6] == 'a' && "page_prev"@[5] == 'p' && "page_next"@[5] == 'n');
    assert("page_next"@[5] != "page_first"@[5] && "page_next"@[5] != "page_prev"@[5]);
    assert("page_prev"@[5] != "page_first"@[5]);
}

/// Which navigation buttons a row disables: when the whole row is disabled, all of
/// them; otherwise First and Back exactly on the first page, Next and Last exactly on
/// the last page, and never the page button. The buttons are First, Back, the page
/// button, Next and Last, in that order.
pub proof fn law_nav_row_disables(page: nat, total_pages: nat, disabled: bool)
    ensures
        nav_row_spec(page, total_pages, disabled).len() == 5,
        nav_row_spec(page, total_pages, disabled)[0].0 == "page_first"@,
        nav_row_spec(page, total_pages, disabled)[1].0 == "page_prev"@,
        nav_row_spec(page, total_pages, disabled)[2].0 == "page_choose"@,
        nav_row_spec(page, total_pages, disabled)[3].0 == "page_next"@,
        nav_row_spec(page, total_pages, disabled)[4].0 == "page_last"@,
        disabled ==> forall|k: int| 0 <= k < 5 ==> #[trigger] nav_row_spec(page, total_pages, disabled)[k].2,
        !disabled ==> {
            &&& nav_row_spec(page, total_pages, disabled)[0].2 == (page == 0)
            &&& nav_row_spec(page, total_pages, disabled)[1].2 == (page == 0)
            &&& !nav_row_spec(page, total_pages, disabled)[2].2
            &&& nav_row_spec(page, total_pages, disabled)[3].2 == (page + 1 >= total_pages)
            &&& nav_row_spec(page, total_pages, disabled)[4].2 == (page + 1 >= total_pages)
        },
{
    let r = nav_row_spec(page, total_pages, disabled);
    assert(r.len() == 5);
    if disabled {
        assert forall|k: int| 0 <= k < 5 implies #[trigger] r[k].2 by {
            assert(k == 0 || k == 1 || k == 2 || k == 3 || k == 4);
        }
    }
}

/// Every quote character that search ignores is taken out before words are formed:
/// normalizing a text with one of them anywhere in it gives what normalizing the text
/// without it gives.
pub proof fn law_quotes_are_dropped(a: Seq<char>, c: char, b: Seq<char>)
    requires
        c == '\'' || c == '"' || c == '`' || c == '\u{2018}' || c == '\u{2019}' || c == '\u{201A}'
            || c == '\u{201B}' || c == '\u{201C}' || c == '\u{201D}' || c == '\u{201E}'
            || c == '\u{201F}' || c == '\u{02BC}' || c == '\u{02B9}' || c == '\u{02C8}'
            || c == '\u{FF07}' || c == '\u{FF02}',
    ensures
        normalize_spec(a + seq![c] + b) == normalize_spec(a + b),
{
    lemma_strip_quotes_append(a + seq![c], b);
    lemma_strip_quotes_append(a, seq![c]);
    lemma_strip_quotes_append(a, b);
    assert(seq![c].drop_last() =~= Seq::<char>::empty());
    assert(seq![c].last() == c);
    assert(is_quote_spec(c));
    assert(strip_quotes(Seq::<char>::empty()) =~= Seq::<char>::empty());
    assert(strip_quotes(seq![c]) =~= Seq::<char>::empty());
    assert(strip_quotes(a) + Seq::<char>::empty() =~= strip_quotes(a));
}

proof fn lemma_embed_fields_order(hs: Seq<Seq<char>>, vs: Seq<Seq<char>>, n: int)
    requires
        0 <= n <= hs.len(),
        hs.len() == vs.len(),
    ensures
        forall|i: int|
            0 <= i < n && !is_blank(#[trigger] vs[i]) ==> exists|p: int|
                0 <= p < embed_fields_spec(hs, vs, n).len() && embed_fields_spec(hs, vs, n)[p] == (
                hs[i],
                vs[i],
            ),
        forall|i: int, j: int|
            #![trigger vs[i], vs[j]]
            0 <= i < j < n && !is_blank(vs[i]) && !is_blank(vs[j]) ==> exists|p: int, q: int|
                0 <= p < q < embed_fields_spec(hs, vs, n).len() && embed_fields_spec(hs, vs, n)[p]
                    == (hs[i], vs[i]) && embed_fields_spec(hs, vs, n)[q] == (hs[j], vs[j]),
    decreases n,
{
    if n > 0 {
        lemma_embed_fields_order(hs, vs, n - 1);
        let prev = embed_fields_spec(hs, vs, n - 1);
        let r = embed_fields_spec(hs, vs, n);
        if !is_blank(vs[n - 1]) {
            assert(r == prev.push((hs[n - 1], vs[n - 1])));
            assert forall|i: int| 0 <= i < n && !is_blank(#[trigger] vs[i]) implies exists|p: int|
                0 <= p < r.len() && r[p] == (hs[i], vs[i]) by {
                if i == n - 1 {
                    assert(r[r.len() - 1] == (hs[i], vs[i]));
                } else {
                    let p = choose|p: int| 0 <= p < prev.len() && prev[p] == (hs[i], vs[i]);
                    assert(r[p] == prev[p]);
                }
            }
            assert forall|i: int, j: int|
                #![trigger vs[i], vs[j]]
                0 <= i < j < n && !is_blank(vs[i]) && !is_blank(vs[j]) implies exists|p: int, q: int|
                0 <= p < q < r.len() && r[p] == (hs[i], vs[i]) && r[q] == (hs[j], vs[j]) by {
                if j == n - 1 {
                    let p = choose|p: int| 0 <= p < prev.len() && prev[p] == (hs[i], vs[i]);
                    assert(r[p] == prev[p]);
                    assert(r[r.len() - 1] == (hs[j], vs[j]));
                } else {
                    let (p, q) = choose|p: int, q: int|
                        0 <= p < q < prev.len() && prev[p] == (hs[i], vs[i]) && prev[q] == (
                        hs[j],
                        vs[j],
                    );
                    assert(r[p] == prev[p]);
                    assert(r[q] == prev[q]);
                }
            }
        }
    }
}

/// The fields of a result page keep the order of the columns: the field of every
/// column with a value that is not blank is shown, and of two such columns the one
/// further left comes first.
pub proof fn law_embed_fields_in_column_order(hs: Seq<Seq<char>>, vs: Seq<Seq<char>>)
    requires
        hs.len() == vs.len(),
    ensures
        forall|i: int|
            0 <= i < hs.len() && !is_blank(#[trigger] vs[i]) ==> exists|p: int|
                0 <= p < embed_fields_spec(hs, vs, hs.len() as int).len() && embed_fields_spec(
                    hs,
                    vs,
                    hs.len() as int,
                )[p] == (hs[i], vs[i]),
        forall|i: int, j: int|
            #![trigger vs[i], vs[j]]
            0 <= i < j < hs.len() && !is_blank(vs[i]) && !is_blank(vs[j]) ==> exists|p: int, q: int|
                0 <= p < q < embed_fields_spec(hs, vs, hs.len() as int).len() && embed_fields_spec(
                    hs,
                    vs,
                    hs.len() as int,
                )[p] == (hs[i], vs[i]) && embed_fields_spec(hs, vs, hs.len() as int)[q] == (
                    hs[j],
                    vs[j],
                ),
{
    lemma_embed_fields_order(hs, vs, hs.len() as int);
}

/// Adding a column to a result page keeps the fields before it and adds at most that
/// column's field, at the end.
pub proof fn law_embed_fields_extend(hs: Seq<Seq<char>>, vs: Seq<Seq<char>>, n: int)
    requires
        0 <= n,
    ensures
        embed_fields_spec(hs, vs, n + 1).len() <= embed_fields_spec(hs, vs, n).len() + 1,
        embed_fields_spec(hs, vs, n + 1).take(embed_fields_spec(hs, vs, n).len() as int)
            == embed_fields_spec(hs, vs, n),
        embed_fields_spec(hs, vs, n + 1).len() > embed_fields_spec(hs, vs, n).len() ==> embed_fields_spec(
            hs,
            vs,
            n + 1,
        ).last() == (hs[n], vs[n]),
{
    let prev = embed_fields_spec(hs, vs, n);
    assert(prev.push((hs[n], vs[n])).take(prev.len() as int) =~= prev);
    assert(prev.take(prev.len() as int) =~= prev);
}

/// Whether a data row has more than eight cells, one of which holds text.
spec fn row_has_text(row: Seq<Seq<crate::html::DomEventView>>) -> bool {
    row_cols(row).len() > 8 && exists|k: int| 0 <= k < row_cols(row).len() && #[trigger] row_cols(row)[k].len() > 0
}

proof fn lemma_records_contain(
    rows: Seq<Seq<Seq<crate::html::DomEventView>>>,
    n: nat,
    j: int,
    m: int,
)
    requires
        0 <= m < rows.len(),
        row_has_text(rows[m]),
    ensures
        records_of(rows, n, j).contains(record_of(row_cols(rows[m]), n, j)),
    decreases rows.len(),
{
    let prev = records_of(rows.drop_last(), n, j);
    let x = record_of(row_cols(rows[m]), n, j);
    if m == rows.len() - 1 {
        let k = choose|k: int| 0 <= k < row_cols(rows[m]).len() && #[trigger] row_cols(rows[m])[k].len() > 0;
        assert(row_cols(rows.last())[k].len() > 0);
        assert(records_of(rows, n, j) == prev.push(x));
        assert(prev.push(x)[prev.len() as int] == x);
    } else {
        assert(rows.drop_last()[m] == rows[m]);
        lemma_records_contain(rows.drop_last(), n, j, m);
        let p = choose|p: int| 0 <= p < prev.len() && prev[p] == x;
        let r = records_of(rows, n, j);
        let c = row_cols(rows.last());
        if r != prev {
            assert(r == prev.push(record_of(c, n, j)));
            assert(r[p] == prev[p]);
        }
    }
}

proof fn lemma_records_none(rows: Seq<Seq<Seq<crate::html::DomEventView>>>, n: nat, j: int)
    requires
        forall|i: int| 0 <= i < rows.len() ==> !row_has_text(#[trigger] rows[i]),
    ensures
        records_of(rows, n, j).len() == 0,
    decreases rows.len(),
{
    if rows.len() > 0 {
        assert forall|i: int| 0 <= i < rows.drop_last().len() implies !row_has_text(
            #[trigger] rows.drop_last()[i],
        ) by {
            assert(rows.drop_last()[i] == rows[i]);
        }
        lemma_records_none(rows.drop_last(), n, j);
        let c = row_cols(rows.last());
        assert(!row_has_text(rows[rows.len() - 1]));
        assert(!(c.len() > 8 && exists|k: int| 0 <= k < c.len() && #[trigger] c[k].len() > 0));
    }
}

proof fn lemma_header_row_bounds(rows: Seq<Seq<Seq<crate::html::DomEventView>>>, i: int)
    requires
        0 <= i,
    ensures
        i <= header_row_from(rows, i) || header_row_from(rows, i) == rows.len(),
        0 <= header_row_from(rows, i) <= rows.len(),
    decreases rows.len() - i,
{
    if i < rows.len() && rows[i].len() == 0 {
        lemma_header_row_bounds(rows, i + 1);
    }
}

/// Which rows after the header row become records: every row with more than eight
/// cells, one of which holds text, becomes a record, whatever its other cells hold;
/// and where no row after the header row is such a row, reading the table fails with
/// `NoDataRows`.
pub proof fn law_rows_with_text_become_records(rows: Seq<Seq<Seq<crate::html::DomEventView>>>)
    requires
        header_row_from(rows, 0) < rows.len(),
        row_headers(rows[header_row_from(rows, 0)]).len() > 0,
        name_column_from(row_headers(rows[header_row_from(rows, 0)]), 0) < row_headers(
            rows[header_row_from(rows, 0)],
        ).len(),
    ensures
        ({
            let h = header_row_from(rows, 0);
            let hs = row_headers(rows[h]);
            let j = name_column_from(hs, 0);
            &&& forall|m: int|
                h < m < rows.len() && row_cols(#[trigger] rows[m]).len() > 8 && (exists|k: int|
                    0 <= k < row_cols(rows[m]).len() && row_cols(rows[m])[k].len() > 0) ==> {
                    &&& parse_table_spec(rows) is Ok
                    &&& parse_table_spec(rows)->Ok_0.1.contains(
                        record_of(row_cols(rows[m]), hs.len(), j),
                    )
                }
            &&& (forall|m: int|
                h < m < rows.len() ==> row_cols(#[trigger] rows[m]).len() <= 8 || forall|k: int|
                    0 <= k < row_cols(rows[m]).len() ==> row_cols(rows[m])[k].len() == 0)
                ==> parse_table_spec(rows) == Err::<
                (Seq<Seq<char>>, Seq<(Seq<char>, Seq<Seq<char>>)>),
                ParseErrorView,
            >(ParseErrorView::NoDataRows)
        }),
{
    lemma_header_row_bounds(rows, 0);
    let h = header_row_from(rows, 0);
    let hs = row_headers(rows[h]);
    let j = name_column_from(hs, 0);
    let rest = rows.skip(h + 1);
    assert forall|m: int|
        h < m < rows.len() && row_cols(#[trigger] rows[m]).len() > 8 && (exists|k: int|
            0 <= k < row_cols(rows[m]).len() && row_cols(rows[m])[k].len() > 0) implies {
        &&& parse_table_spec(rows) is Ok
        &&& parse_table_spec(rows)->Ok_0.1.contains(record_of(row_cols(rows[m]), hs.len(), j))
    } by {
        assert(rest[m - h - 1] == rows[m]);
        let k = choose|k: int| 0 <= k < row_cols(rows[m]).len() && row_cols(rows[m])[k].len() > 0;
        assert(row_cols(rest[m - h - 1])[k].len() > 0);
        lemma_records_contain(rest, hs.len(), j, m - h - 1);
    }
    if forall|m: int|
        h < m < rows.len() ==> row_cols(#[trigger] rows[m]).len() <= 8 || forall|k: int|
            0 <= k < row_cols(rows[m]).len() ==> row_cols(rows[m])[k].len() == 0 {
        assert forall|i: int| 0 <= i < rest.len() implies !row_has_text(#[trigger] rest[i]) by {
            assert(rest[i] == rows[i + h + 1]);
            let cs = row_cols(rows[i + h + 1]);
            if cs.len() > 8 {
                assert(forall|k: int| 0 <= k < cs.len() ==> #[trigger] cs[k].len() == 0);
            }
        }
        lemma_records_none(rest, hs.len(), j);
    }
}

} // verus!
