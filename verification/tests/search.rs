use avatracker::bot::Data;
use avatracker::html::{DomEvent, NodeKind};
use avatracker::text::{normalize, process_line, word_counts};
use avatracker::tracker::{parse_html, parse_table, ParseError, Tracker, TrackerConfig, TrackerRecord};

fn text(s: &str) -> DomEvent {
    DomEvent::Open(NodeKind::Text(s.to_string()))
}

fn open(tag: &str) -> DomEvent {
    DomEvent::Open(NodeKind::Element(tag.to_string()))
}

fn text_cell(s: &str) -> Vec<DomEvent> {
    vec![open("td"), text(s), DomEvent::Close, DomEvent::Close]
}

fn record(name: &str, fields: &[&str]) -> TrackerRecord {
    TrackerRecord::new(name.to_string(), fields.iter().map(|f| f.to_string()).collect())
}

fn sample_tracker() -> Tracker {
    Tracker::from_records(
        "ye",
        vec!["Era".to_string(), "Notes".to_string()],
        vec![
            record("Stronger\n(Daft Punk remix)", &["Graduation", "leak"]),
            record("Can't Tell Me Nothing", &["Graduation", ""]),
            record("Good Life", &["Graduation", "  "]),
            record("Good Good Life", &["Other", "x"]),
        ],
    )
}

#[test]
fn normalize_drops_quotes_and_lowercases() {
    assert_eq!(normalize("Don't  Stop-ME"), "dont stop me");
    assert_eq!(normalize("  --  "), "");
    assert_eq!(normalize("\u{201C}Hello\u{201D}, World!"), "hello world");
    assert_eq!(normalize("a1b2 C3"), "a1b2 c3");
}

#[test]
fn process_line_collapses_whitespace() {
    assert_eq!(process_line("a   b\t c"), "a b c");
    assert_eq!(process_line("end ."), "end.");
    assert_eq!(process_line("x ( y )"), "x ( y)");
    assert_eq!(process_line("tail   "), "tail");
    assert_eq!(process_line(""), "");
}

#[test]
fn process_line_keeps_leading_whitespace_pending() {
    // A whitespace run before the first character is still pending after it.
    assert_eq!(process_line("  ab"), "a b");
    assert_eq!(process_line(" a."), "a.");
    assert_eq!(process_line(" a"), "a");
}

#[test]
fn word_counts_counts_each_word() {
    let counts = word_counts("good good life");
    assert_eq!(counts.get("good"), Some(2));
    assert_eq!(counts.get("life"), Some(1));
    assert_eq!(counts.get("bad"), None);
    let need = word_counts("good life");
    assert!(counts.contains_all(&need));
    assert!(!need.contains_all(&counts));
}

#[test]
fn search_finds_records_with_all_query_words() {
    let t = sample_tracker();
    let results = t.search("good life");
    let names: Vec<&str> = results.iter().map(|r| r.name_raw).collect();
    assert_eq!(names, vec!["Good Life", "Good Good Life"]);
    let results = t.search("GOOD good");
    assert_eq!(results.len(), 1);
    assert_eq!(results[0].name_clean, "Good Good Life");
}

#[test]
fn search_splits_the_name_at_the_first_line_break() {
    let t = sample_tracker();
    let results = t.search("stronger");
    assert_eq!(results.len(), 1);
    assert_eq!(results[0].name_clean, "Stronger");
    assert_eq!(results[0].name_extra, Some("(Daft Punk remix)"));
    assert_eq!(results[0].record.fields(), &vec!["Graduation".to_string(), "leak".to_string()]);
}

#[test]
fn search_ignores_quotes_and_empty_queries() {
    let t = sample_tracker();
    assert_eq!(t.search("cant tell").len(), 1);
    assert_eq!(t.search("Can't").len(), 1);
    assert_eq!(t.search("   ").len(), 0);
    assert_eq!(t.search("nothing here at all").len(), 0);
}

#[test]
fn build_embed_shows_non_blank_fields() {
    let t = sample_tracker();
    let results = t.search("life");
    let e = t.build_embed(&results, 0).ok().unwrap();
    assert_eq!(e.title, "Good Life");
    assert_eq!(e.description, "");
    assert_eq!(e.fields, vec![("Era".to_string(), "Graduation".to_string())]);
    let s = t.search("stronger");
    let e = t.build_embed(&s, 0).ok().unwrap();
    assert_eq!(e.description, "(Daft Punk remix)");
    assert_eq!(e.fields.len(), 2);
    match t.build_embed(&results, 5) {
        Err(err) => assert_eq!(err.page, 5),
        Ok(_) => panic!("page 5 does not exist"),
    }
}

fn data_row(name: &str) -> Vec<Vec<DomEvent>> {
    let mut row = vec![text_cell("x1")];
    row.push(text_cell(name));
    for i in 2..9 {
        row.push(text_cell(&format!("c{i}")));
    }
    row
}

#[test]
fn parse_table_reads_headers_and_records() {
    let header = vec![text_cell("Era"), text_cell("Name (song)"), text_cell("Notes")];
    let rows = vec![vec![], header, data_row("Song A"), vec![text_cell("short")], data_row("Song B")];
    let (headers, records) = parse_table(&rows).ok().unwrap();
    assert_eq!(headers, vec!["Era".to_string(), "Notes".to_string()]);
    assert_eq!(records.len(), 2);
    assert_eq!(records[0].name(), "Song A");
    assert_eq!(records[0].fields(), &vec!["x1".to_string(), "c2".to_string()]);
    assert_eq!(records[1].name(), "Song B");
}

#[test]
fn parse_table_errors() {
    assert!(matches!(parse_table(&vec![vec![], vec![]]), Err(ParseError::NoHeaderRow)));
    let no_name = vec![vec![text_cell("Era"), text_cell("Notes")], data_row("A")];
    match parse_table(&no_name) {
        Err(ParseError::NoNameColumn(h)) => assert_eq!(h, vec!["Era".to_string(), "Notes".to_string()]),
        _ => panic!("expected a missing name column"),
    }
    let no_rows = vec![vec![text_cell("Name")], vec![text_cell("a")]];
    assert!(matches!(parse_table(&no_rows), Err(ParseError::NoDataRows)));
}

#[test]
fn cell_text_reads_line_breaks() {
    let cell = vec![
        open("td"),
        text("  Line   one"),
        open("br"),
        DomEvent::Close,
        text("two\r"),
        DomEvent::Close,
        DomEvent::Close,
    ];
    assert_eq!(avatracker::html::cell_text(&cell), "L ine one\ntwo");
    let header = vec![open("td"), text("Name"), open("br"), DomEvent::Close, text("(x) y"), DomEvent::Close];
    assert_eq!(avatracker::html::header_text(&header), "Name");
}

#[test]
fn parse_html_reads_a_page() {
    let mut html = String::from("<table><tr><td>Era</td><td>Name<br>(title)</td><td>Notes</td></tr>");
    html.push_str("<tr>");
    html.push_str("<td>Graduation</td><td>Good <b>Life</b><br>feat. T-Pain</td>");
    for i in 2..9 {
        html.push_str(&format!("<td>n{i}</td>"));
    }
    html.push_str("</tr></table>");
    let (headers, records) = parse_html(&html).ok().unwrap();
    assert_eq!(headers, vec!["Era".to_string(), "Notes".to_string()]);
    assert_eq!(records.len(), 1);
    assert_eq!(records[0].name(), "Good Life\nfeat. T-Pain");
    assert_eq!(records[0].fields(), &vec!["Graduation".to_string(), "n2".to_string()]);
    let config = TrackerConfig { name: "ye", url: "https://example.invalid" };
    let t = Tracker::build(&config, &html).ok().unwrap();
    assert_eq!(t.search("life").len(), 1);
    assert!(matches!(parse_html("<p>nothing</p>"), Err(ParseError::NoHeaderRow)));
}

#[test]
fn data_keeps_the_last_tracker_of_a_name() {
    let a = Tracker::from_records("ye", vec![], vec![record("A", &[])]);
    let b = Tracker::from_records("other", vec![], vec![]);
    let c = Tracker::from_records("ye", vec![], vec![record("C", &[]), record("D", &[])]);
    let data = Data::new(vec![a, b, c]);
    let ye = data.get("ye").unwrap();
    assert_eq!(ye.search("d").len(), 1);
    assert!(data.get("other").is_some());
    assert!(data.get("none").is_none());
}
