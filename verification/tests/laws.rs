use avatracker::html::{DomEvent, NodeKind};
use avatracker::paging::{NavEvent, PageChoice, Paginator};
use avatracker::text::{normalize, process_line};
use avatracker::tracker::{parse_table, Tracker, TrackerRecord};

fn record(name: &str) -> TrackerRecord {
    TrackerRecord::new(name.to_string(), vec![])
}

fn tracker() -> Tracker {
    Tracker::from_records(
        "t",
        vec![],
        vec![
            record("Heard 'Em Say"),
            record("Say You Will"),
            record("Say Say Say"),
            record("Touch The Sky"),
        ],
    )
}

fn names(t: &Tracker, q: &str) -> Vec<String> {
    t.search(q).iter().map(|r| r.name_raw.to_string()).collect()
}

#[test]
fn word_order_does_not_matter() {
    let t = tracker();
    assert_eq!(names(&t, "you say"), names(&t, "say you"));
    assert_eq!(names(&t, "SAY, you!"), vec!["Say You Will".to_string()]);
}

#[test]
fn more_words_narrow_the_results() {
    let t = tracker();
    let wide = names(&t, "say");
    let narrow = names(&t, "say say");
    assert_eq!(wide.len(), 3);
    assert_eq!(narrow, vec!["Say Say Say".to_string()]);
    assert!(narrow.iter().all(|n| wide.contains(n)));
}

#[test]
fn results_keep_spreadsheet_order() {
    let t = tracker();
    assert_eq!(
        names(&t, "say"),
        vec!["Heard 'Em Say".to_string(), "Say You Will".to_string(), "Say Say Say".to_string()]
    );
}

#[test]
fn own_name_finds_the_record() {
    let t = tracker();
    for name in ["Heard 'Em Say", "Say You Will", "Say Say Say", "Touch The Sky"] {
        assert!(names(&t, name).contains(&name.to_string()));
    }
}

#[test]
fn quotes_do_not_matter() {
    assert_eq!(normalize("Heard 'Em Say"), normalize("Heard Em Say"));
    assert_eq!(normalize("\"Jesus\" Walks"), normalize("Jesus Walks"));
}

#[test]
fn processed_lines_are_trimmed_and_joined() {
    let out = process_line("Good  Life ,  feat.\tT-Pain   ");
    assert_eq!(out, "Good Life, feat. T-Pain");
    assert!(!out.starts_with(' ') && !out.ends_with(' '));
    assert!(!out.contains("  "));
}

fn cell(s: &str) -> Vec<DomEvent> {
    vec![
        DomEvent::Open(NodeKind::Element("td".to_string())),
        DomEvent::Open(NodeKind::Text(s.to_string())),
        DomEvent::Close,
        DomEvent::Close,
    ]
}

#[test]
fn records_have_one_field_per_header() {
    let header: Vec<_> = ["A", "Name", "B", "C"].iter().map(|h| cell(h)).collect();
    let long: Vec<_> = (0..12).map(|i| cell(&format!("v{i}"))).collect();
    let short: Vec<_> = (0..9).map(|i| cell(if i == 0 { "x" } else { "" })).collect();
    let (headers, records) = parse_table(&vec![header, long, short]).ok().unwrap();
    assert_eq!(headers.len(), 3);
    for r in &records {
        assert_eq!(r.fields().len(), headers.len());
    }
}

#[test]
fn embed_fields_are_not_blank() {
    let t = Tracker::from_records(
        "t",
        vec!["A".to_string(), "B".to_string(), "C".to_string()],
        vec![TrackerRecord::new(
            "Song".to_string(),
            vec![" \t".to_string(), "b".to_string(), "".to_string()],
        )],
    );
    let results = t.search("song");
    let e = t.build_embed(&results, 0).ok().unwrap();
    assert_eq!(e.fields, vec![("B".to_string(), "b".to_string())]);
}

#[test]
fn chosen_pages_exist() {
    for total in 1..5 {
        for v in ["0", "1", "2", "3", "4", "5", " 3 ", "x"] {
            if let PageChoice::Chosen(p) = Tracker::choose_page(v, total) {
                assert!(p < total);
            }
        }
    }
}

#[test]
fn navigation_stays_in_range_and_next_back_returns() {
    let ids = [Tracker::BTN_FIRST, Tracker::BTN_PREV, Tracker::BTN_NEXT, Tracker::BTN_LAST, "other"];
    for total in 1..4 {
        for start in 0..total {
            for id in ids {
                let mut p = Paginator::new(total);
                p.step(&NavEvent::PageChosen(Some(start)));
                p.step(&NavEvent::Pressed(id.to_string()));
                assert!(p.page() < total);
            }
            let mut p = Paginator::new(total);
            p.step(&NavEvent::PageChosen(Some(start)));
            p.step(&NavEvent::Pressed(Tracker::BTN_NEXT.to_string()));
            p.step(&NavEvent::Pressed(Tracker::BTN_PREV.to_string()));
            if start + 1 < total {
                assert_eq!(p.page(), start);
            }
        }
    }
}

#[test]
fn processing_twice_changes_nothing() {
    for line in ["Good  Life ,  feat.\tT-Pain   ", "  ab", " a.", "x ( y )", "", "end ."] {
        let once = process_line(line);
        assert_eq!(process_line(&once), once);
    }
}

#[test]
fn ascii_case_does_not_matter() {
    for s in ["Heard 'Em Say", "Don't  Stop-ME", "a1b2 C3", "ÉCOLE Über"] {
        assert_eq!(normalize(&s.to_ascii_uppercase()), normalize(s));
        assert_eq!(normalize(&s.to_ascii_lowercase()), normalize(s));
    }
}

#[test]
fn normalizing_ascii_twice_changes_nothing() {
    for s in ["Heard 'Em Say", "  --  ", "Don't  Stop-ME!!", "\"Jesus\" Walks (feat. x)"] {
        let once = normalize(s);
        assert_eq!(normalize(&once), once);
    }
}

#[test]
fn normal_form_of_ascii_is_spaced_lowercase_words() {
    let out = normalize("  The  'Life' of PABLO -- 2016!  ");
    assert_eq!(out, "the life of pablo 2016");
    assert!(!out.starts_with(' ') && !out.ends_with(' ') && !out.contains("  "));
    assert!(out.chars().all(|c| c == ' ' || c.is_ascii_lowercase() || c.is_ascii_digit()));
}

#[test]
fn whitespace_test_agrees_with_std() {
    for u in 0u32..0x3100 {
        if let Some(c) = char::from_u32(u) {
            assert_eq!(avatracker::chars::is_whitespace(c), c.is_whitespace(), "{u:#x}");
        }
    }
}

#[test]
fn normal_form_holds_outside_ascii() {
    for s in ["  ÉCOLE   Straße, İstanbul \u{212A}elvin  ", "\u{00A0}Über\u{2003}alles\u{3000}", "日本 語"] {
        let out = normalize(s);
        assert!(!out.starts_with(' ') && !out.ends_with(' ') && !out.contains("  "), "{out:?}");
        assert!(out.chars().all(|c| c == ' ' || (!c.is_whitespace()
            && (!c.is_ascii() || c.is_ascii_lowercase() || c.is_ascii_digit()))), "{out:?}");
    }
    assert_eq!(normalize("\u{212A}elvin"), "kelvin");
}

#[test]
fn longer_query_keeps_matching_results_in_order() {
    let t = tracker();
    let wide = names(&t, "say");
    let narrow = names(&t, "you say");
    let kept: Vec<String> = wide.iter().filter(|n| narrow.contains(n)).cloned().collect();
    assert_eq!(narrow, kept);
    assert_eq!(narrow, vec!["Say You Will".to_string()]);
}
