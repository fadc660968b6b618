use vstd::prelude::*;

use crate::chars::{chars_of, is_ascii_letter, join_with, lemma_join_push, push_chars};
use crate::text::{process_line_chars, process_line_spec};

verus! {

broadcast use vstd::string::group_string_axioms;

/// What a node of an HTML tree is: text, an element with its tag name, or anything else.
pub enum NodeKind {
    Text(String),
    Element(String),
    Other,
}

/// A step of a depth-first walk over an HTML subtree: a node is opened (before its
/// children) or closed (after them). Every node is opened once and closed once.
pub enum DomEvent {
    Open(NodeKind),
    Close,
}

/// `NodeKind` over character sequences.
pub enum NodeKindView {
    Text(Seq<char>),
    Element(Seq<char>),
    Other,
}

/// `DomEvent` over character sequences.
pub enum DomEventView {
    Open(NodeKindView),
    Close,
}

impl View for NodeKind {
    type V = NodeKindView;

    open spec fn view(&self) -> NodeKindView {
        match self {
            NodeKind::Text(t) => NodeKindView::Text(t@),
            NodeKind::Element(n) => NodeKindView::Element(n@),
            NodeKind::Other => NodeKindView::Other,
        }
    }
}

impl View for DomEvent {
    type V = DomEventView;

    open spec fn view(&self) -> DomEventView {
        match self {
            DomEvent::Open(k) => DomEventView::Open(k@),
            DomEvent::Close => DomEventView::Close,
        }
    }
}

/// The walk of one table cell.
pub open spec fn cell_view(cell: Vec<DomEvent>) -> Seq<DomEventView> {
    cell@.map_values(|e: DomEvent| e@)
}

/// The cells of one table row.
pub open spec fn row_view(row: Vec<Vec<DomEvent>>) -> Seq<Seq<DomEventView>> {
    row@.map_values(|c: Vec<DomEvent>| cell_view(c))
}

/// The rows of a table.
pub open spec fn table_view(rows: Seq<Vec<Vec<DomEvent>>>) -> Seq<Seq<Seq<DomEventView>>> {
    rows.map_values(|r: Vec<Vec<DomEvent>>| row_view(r))
}

/// Whether `n` is the tag name `br`.
pub open spec fn is_br(n: Seq<char>) -> bool {
    n == seq!['b', 'r']
}

/// The text gathered from a walk, and how deep the walk is inside a `br` element.
/// Text nodes contribute their text, a `br` element contributes `br` and nothing
/// inside it is read, other nodes contribute nothing.
pub open spec fn text_state(evs: Seq<DomEventView>, br: char) -> (Seq<char>, nat)
    decreases evs.len(),
{
    if evs.len() == 0 {
        (seq![], 0)
    } else {
        let (t, skip) = text_state(evs.drop_last(), br);
        match evs.last() {
            DomEventView::Open(k) => if skip > 0 {
                (t, skip + 1)
            } else {
                match k {
                    NodeKindView::Text(s) => (t + s, 0),
                    NodeKindView::Element(n) => if is_br(n) {
                        (t.push(br), 1)
                    } else {
                        (t, 0)
                    },
                    NodeKindView::Other => (t, 0),
                }
            },
            DomEventView::Close => if skip > 0 {
                ((t, (skip - 1) as nat))
            } else {
                (t, 0)
            },
        }
    }
}

/// The text of a walk, with `br` standing for each line-break element.
pub open spec fn text_of(evs: Seq<DomEventView>, br: char) -> Seq<char> {
    text_state(evs, br).0
}

proof fn lemma_text_depth(evs: Seq<DomEventView>, br: char)
    ensures
        text_state(evs, br).1 <= evs.len(),
    decreases evs.len(),
{
    if evs.len() > 0 {
        lemma_text_depth(evs.drop_last(), br);
    }
}

fn is_br_name(n: &String) -> (r: bool)
    ensures
        r == is_br(n@),
{
    let cs = chars_of(n.as_str());
    let r = cs.len() == 2 && cs[0] == 'b' && cs[1] == 'r';
    assert(r ==> cs@ =~= seq!['b', 'r']);
    r
}

/// Appends the text of a cell's walk to `out`, with `br` for each line break.
pub fn collect_text(cell: &Vec<DomEvent>, out: &mut String, br: char)
    ensures
        final(out)@ == old(out)@ + text_of(cell_view(*cell), br),
{
    let ghost start = out@;
    let ghost evs = cell_view(*cell);
    let mut skip: usize = 0;
    for i in 0..cell.len()
        invariant
            evs == cell_view(*cell),
            (out@, skip as nat) == (start + text_state(evs.take(i as int), br).0, text_state(
                evs.take(i as int),
                br,
            ).1),
            skip <= i,
    {
        assert(evs.take(i + 1).drop_last() =~= evs.take(i as int));
        assert(evs.take(i + 1).last() == cell@[i as int]@);
        proof {
            lemma_text_depth(evs.take(i as int), br);
        }
        match &cell[i] {
            DomEvent::Open(k) => {
                if skip > 0 {
                    skip = skip + 1;
                } else {
                    match k {
                        NodeKind::Text(t) => {
                            out.append(t.as_str());
                        },
                        NodeKind::Element(n) => {
                            if is_br_name(n) {
                                crate::chars::push_char(out, br);
                                skip = 1;
                            }
                        },
                        NodeKind::Other => {},
                    }
                }
            },
            DomEvent::Close => {
                if skip > 0 {
                    skip = skip - 1;
                }
            },
        }
        assert(out@ == start + text_state(evs.take(i + 1), br).0);
    }
    assert(evs.take(cell.len() as int) =~= evs);
}

/// The position of the first " (" in `s` at or after `i`, or the length of `s`.
pub open spec fn space_paren_from(s: Seq<char>, i: int) -> int
    decreases s.len() - i,
{
    if i < 0 || i + 1 >= s.len() {
        s.len() as int
    } else if s[i] == ' ' && s[i + 1] == '(' {
        i
    } else {
        space_paren_from(s, i + 1)
    }
}

/// The text of a header cell: its text (line breaks read as spaces) up to the first
/// " (", with its whitespace collapsed.
pub open spec fn header_text_spec(cell: Seq<DomEventView>) -> Seq<char> {
    let raw = text_of(cell, ' ');
    process_line_spec(raw.take(space_paren_from(raw, 0)))
}

/// The text of a header cell (see `header_text_spec`).
pub fn header_text(cell: &Vec<DomEvent>) -> (r: String)
    ensures
        r@ == header_text_spec(cell_view(*cell)),
{
    let mut raw = String::new();
    collect_text(cell, &mut raw, ' ');
    let mut chars = chars_of(raw.as_str());
    let mut k: usize = 0;
    let ghost s = chars@;
    while k < chars.len() && k + 1 < chars.len() && !(chars[k] == ' ' && chars[k + 1] == '(')
        invariant
            chars@ == s,
            k <= s.len(),
            space_paren_from(s, 0) == space_paren_from(s, k as int),
        decreases s.len() - k,
    {
        k = k + 1;
    }
    if k >= chars.len() || k + 1 >= chars.len() {
        k = chars.len();
    }
    chars.truncate(k);
    process_line_chars(&chars)
}

/// The pieces of `s` between the occurrences of `c` (at least one piece), as
/// `str::split` yields them.
pub open spec fn split_on(s: Seq<char>, c: char) -> Seq<Seq<char>>
    decreases s.len(),
{
    if s.len() == 0 {
        seq![seq![]]
    } else {
        let p = split_on(s.drop_last(), c);
        if s.last() == c {
            p.push(seq![])
        } else {
            p.drop_last().push(p.last().push(s.last()))
        }
    }
}

/// `l` without one trailing carriage return.
pub open spec fn strip_cr(l: Seq<char>) -> Seq<char> {
    if l.len() > 0 && l.last() == '\r' {
        l.drop_last()
    } else {
        l
    }
}

/// Each piece without one trailing carriage return.
pub open spec fn strip_crs(ls: Seq<Seq<char>>) -> Seq<Seq<char>> {
    ls.map_values(|l: Seq<char>| strip_cr(l))
}

/// The lines of `s`, as `str::lines` yields them: split at line feeds, a carriage
/// return before a line feed dropped, and no empty line after a final line feed.
pub open spec fn lines_of(s: Seq<char>) -> Seq<Seq<char>> {
    let parts = split_on(s, '\n');
    let body = strip_crs(parts.drop_last());
    if parts.last().len() == 0 {
        body
    } else {
        body.push(parts.last())
    }
}

/// Each line with its whitespace collapsed.
pub open spec fn processed_lines(ls: Seq<Seq<char>>) -> Seq<Seq<char>> {
    ls.map_values(|l: Seq<char>| process_line_spec(l))
}

/// The text of a data cell: its lines (line breaks read as line feeds), each with its
/// whitespace collapsed, joined with line feeds.
pub open spec fn cell_text_spec(cell: Seq<DomEventView>) -> Seq<char> {
    join_with(processed_lines(lines_of(text_of(cell, '\n'))), seq!['\n'])
}

/// The text of a data cell (see `cell_text_spec`).
pub fn cell_text(cell: &Vec<DomEvent>) -> (r: String)
    ensures
        r@ == cell_text_spec(cell_view(*cell)),
{
    let mut raw = String::new();
    collect_text(cell, &mut raw, '\n');
    let chars = chars_of(raw.as_str());
    let ghost s = chars@;
    let mut out = String::new();
    let mut cur: Vec<char> = Vec::new();
    let mut count: usize = 0;
    for i in 0..chars.len()
        invariant
            chars@ == s,
            split_on(s.take(i as int), '\n').len() >= 1,
            cur@ == split_on(s.take(i as int), '\n').last(),
            count == split_on(s.take(i as int), '\n').len() - 1,
            count <= i,
            out@ == join_with(
                processed_lines(strip_crs(split_on(s.take(i as int), '\n').drop_last())),
                seq!['\n'],
            ),
    {
        let c = chars[i];
        let ghost parts = split_on(s.take(i as int), '\n');
        assert(s.take(i + 1).drop_last() =~= s.take(i as int));
        assert(s.take(i + 1).last() == c);
        if c == '\n' {
            let ghost done = processed_lines(strip_crs(parts.drop_last()));
            let mut line = cur;
            if line.len() > 0 && line[line.len() - 1] == '\r' {
                line.pop();
            }
            assert(line@ == strip_cr(parts.last()));
            let processed = process_line_chars(&line);
            if count > 0 {
                crate::chars::push_char(&mut out, '\n');
            }
            out.append(processed.as_str());
            proof {
                let parts2 = split_on(s.take(i + 1), '\n');
                assert(parts2 == parts.push(seq![]));
                assert(parts2.drop_last() =~= parts);
                assert(parts.drop_last().push(parts.last()) =~= parts);
                assert(processed_lines(strip_crs(parts)) =~= done.push(processed@));
                lemma_join_push(done, seq!['\n'], processed@);
            }
            cur = Vec::new();
            count = count + 1;
        } else {
            cur.push(c);
            proof {
                let parts2 = split_on(s.take(i + 1), '\n');
                assert(parts2 == parts.drop_last().push(parts.last().push(c)));
                assert(parts2.drop_last() =~= parts.drop_last());
            }
        }
    }
    let ghost parts = split_on(s, '\n');
    assert(s.take(chars.len() as int) =~= s);
    if cur.len() > 0 {
        let processed = process_line_chars(&cur);
        if count > 0 {
            crate::chars::push_char(&mut out, '\n');
        }
        out.append(processed.as_str());
        proof {
            let done = processed_lines(strip_crs(parts.drop_last()));
            assert(processed_lines(strip_crs(parts.drop_last()).push(parts.last())) =~= done.push(
                processed@,
            ));
            lemma_join_push(done, seq!['\n'], processed@);
        }
    }
    out
}

/// Whether `s` is a tag name of ASCII letters, which a CSS selector reads as a type
/// selector: it picks the elements of that name.
pub open spec fn is_tag_name(s: Seq<char>) -> bool {
    s.len() > 0 && forall|i: int| 0 <= i < s.len() ==> is_ascii_letter(#[trigger] s[i])
}

/// The walks of the `cell_tag` cells of the `row_tag` rows of an HTML fragment, as
/// `scraper` parses and selects them: rows, and in each row its cells, in the order in
/// which `select` walks the parsed tree (the order its nodes were inserted), each cell
/// walked depth-first from the cell element itself.
pub uninterp spec fn html_table_walks(
    html: Seq<char>,
    row_tag: Seq<char>,
    cell_tag: Seq<char>,
) -> Seq<Seq<Seq<DomEventView>>>;

/// Parses `html` as a fragment with `scraper::Html::parse_fragment`, selects every
/// `row_tag` element and in each every `cell_tag` element, and walks each cell with
/// `ego_tree`'s `traverse`. A tag name of ASCII letters is a CSS type selector, which
/// `Selector::parse` accepts. The contract claims only that the result is a function of
/// the text of `html` and the two tag names; it says nothing of how HTML is parsed.
#[verifier::external_body]
pub(crate) fn table_walks(html: &str, row_tag: &str, cell_tag: &str) -> (rows: Vec<
    Vec<Vec<DomEvent>>,
>)
    requires
        is_tag_name(row_tag@),
        is_tag_name(cell_tag@),
    ensures
        table_view(rows@) == html_table_walks(html@, row_tag@, cell_tag@),
{
    let doc = scraper::Html::parse_fragment(html);
    let tr = scraper::Selector::parse(row_tag).unwrap();
    let td = scraper::Selector::parse(cell_tag).unwrap();
    doc.select(&tr).map(|row| row.select(&td).map(|cell| cell.traverse().map(|edge| match edge {
        ego_tree::iter::Edge::Open(node) => DomEvent::Open(match node.value() {
            scraper::Node::Text(t) => NodeKind::Text(String::from(&**t)),
            scraper::Node::Element(e) => NodeKind::Element(String::from(e.name())),
            _ => NodeKind::Other,
        }),
        ego_tree::iter::Edge::Close(_) => DomEvent::Close,
    }).collect()).collect()).collect()
}

} // verus!
