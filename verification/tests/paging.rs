use avatracker::paging::{ButtonStyle, NavAction, NavButton, NavEvent, PageChoice, Paginator};
use avatracker::tracker::{
    PageOutOfBounds, ParseError, Tracker, TrackerRecord, ERROR_COLOR, RESULT_COLOR,
};

fn view(row: &[NavButton]) -> Vec<(&str, &str, bool)> {
    row.iter().map(|b| (b.custom_id, b.label.as_str(), b.disabled)).collect()
}

#[test]
fn nav_row_on_first_page() {
    let row = Tracker::enabled_nav_row(0, 3);
    assert_eq!(
        view(&row),
        vec![
            ("page_first", "First", true),
            ("page_prev", "Back", true),
            ("page_choose", "1/3", false),
            ("page_next", "Next", false),
            ("page_last", "Last", false),
        ]
    );
}

#[test]
fn nav_row_on_last_page_and_disabled() {
    let row = Tracker::enabled_nav_row(11, 12);
    assert_eq!(view(&row)[2], ("page_choose", "12/12", false));
    assert!(row[3].disabled && row[4].disabled && !row[0].disabled);
    let off = Tracker::disabled_nav_row();
    assert!(off.iter().all(|b| b.disabled));
    assert_eq!(off[2].label, "1/0");
}

#[test]
fn choose_page_reads_the_dialog() {
    assert!(matches!(Tracker::choose_page(" 2 ", 3), PageChoice::Chosen(1)));
    assert!(matches!(Tracker::choose_page("+3", 3), PageChoice::Chosen(2)));
    assert!(matches!(Tracker::choose_page("0", 3), PageChoice::OutOfRange));
    assert!(matches!(Tracker::choose_page("4", 3), PageChoice::OutOfRange));
    assert!(matches!(Tracker::choose_page("two", 3), PageChoice::NotANumber));
    assert!(matches!(Tracker::choose_page("", 3), PageChoice::NotANumber));
    assert!(matches!(Tracker::choose_page("-1", 3), PageChoice::NotANumber));
    assert!(matches!(Tracker::choose_page("99999999999999999999999", 3), PageChoice::NotANumber));
}

#[test]
fn messages() {
    assert_eq!(Tracker::page_range_message(7), "Page must be between 1 and 7.");
    assert_eq!(Tracker::no_result_message("x y"), "No result found for \"x y\"");
    assert_eq!(PageOutOfBounds { page: 42 }.message(), "Index out of bounds. 42");
    assert_eq!(
        ParseError::NoNameColumn(vec!["Era".to_string(), "A\"b".to_string()]).message(),
        "no key starting with 'Name' found; headers: [\"Era\", \"A\\\"b\"]"
    );
    assert_eq!(ParseError::NoDataRows.message(), "parsed headers but found no data rows");
}

fn press(p: &mut Paginator, id: &str) -> NavAction {
    p.step(&NavEvent::Pressed(id.to_string()))
}

#[test]
fn paginator_moves_between_pages() {
    let mut p = Paginator::new(3);
    assert!(matches!(press(&mut p, Tracker::BTN_PREV), NavAction::Acknowledge { redraw: false }));
    assert_eq!(p.page(), 0);
    assert!(matches!(press(&mut p, Tracker::BTN_NEXT), NavAction::Acknowledge { redraw: true }));
    assert_eq!(p.page(), 1);
    assert!(matches!(press(&mut p, Tracker::BTN_LAST), NavAction::Acknowledge { redraw: true }));
    assert_eq!(p.page(), 2);
    assert!(matches!(press(&mut p, Tracker::BTN_NEXT), NavAction::Acknowledge { redraw: false }));
    assert_eq!(p.page(), 2);
    assert!(matches!(press(&mut p, Tracker::BTN_FIRST), NavAction::Acknowledge { redraw: true }));
    assert_eq!(p.page(), 0);
    assert!(matches!(press(&mut p, "something_else"), NavAction::Acknowledge { redraw: false }));
    assert!(matches!(press(&mut p, Tracker::BTN_CHOOSE), NavAction::AskPage));
    assert!(matches!(p.step(&NavEvent::PageChosen(Some(2))), NavAction::Redraw));
    assert_eq!(p.page(), 2);
    assert!(matches!(p.step(&NavEvent::PageChosen(Some(2))), NavAction::Nothing));
    assert!(matches!(p.step(&NavEvent::PageChosen(None)), NavAction::Nothing));
    assert!(matches!(p.step(&NavEvent::TimedOut), NavAction::Disable));
    assert_eq!(p.total_pages(), 3);
}

#[test]
fn next_then_back_returns() {
    let mut p = Paginator::new(5);
    press(&mut p, Tracker::BTN_NEXT);
    press(&mut p, Tracker::BTN_NEXT);
    press(&mut p, Tracker::BTN_PREV);
    assert_eq!(p.page(), 1);
    press(&mut p, Tracker::BTN_PREV);
    press(&mut p, Tracker::BTN_NEXT);
    assert_eq!(p.page(), 1);
}

#[test]
fn nav_buttons_are_secondary() {
    for row in [Tracker::enabled_nav_row(1, 4), Tracker::disabled_nav_row()] {
        assert_eq!(row.len(), 5);
        assert!(row.iter().all(|b| matches!(b.style, ButtonStyle::Secondary)));
    }
}

#[test]
fn embeds_carry_colour_and_footer() {
    let t = Tracker::from_records("t", vec![], vec![TrackerRecord::new("Song".to_string(), vec![])]);
    let results = t.search("song");
    let e = t.build_embed(&results, 0).ok().unwrap();
    assert_eq!(e.color, 0x00F55E);
    assert_eq!(RESULT_COLOR, 0x00F55E);
    assert_eq!(e.footer_text, "Made by botmert \u{2661}");
    assert_eq!(e.footer_icon, "https://i.imgur.com/8uTFXwR.png");
    let none = Tracker::no_result_embed("zzz");
    assert_eq!(none.title, "Error");
    assert_eq!(none.description, "No result found for \"zzz\"");
    assert!(none.fields.is_empty());
    assert_eq!(none.color, ERROR_COLOR);
    assert_eq!(none.color, 0xE74C3C);
    assert_eq!(none.footer_text, Tracker::FOOTER_TEXT);
}

#[test]
fn parse_failure_message_names_the_tracker() {
    assert_eq!(
        Tracker::parse_failure_message("ye", &ParseError::NoHeaderRow),
        "[ye] failed to parse HTML: no header row found, is the page returning an error page?"
    );
}
