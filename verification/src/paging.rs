use vstd::prelude::*;

use crate::chars::{
    chars_of, decimal, parse_usize, parse_usize_spec, push_decimal, same_text, trim, trim_chars,
};
use crate::tracker::Tracker;

verus! {

broadcast use vstd::string::group_string_axioms;

impl Tracker {
    pub const FOOTER_TEXT: &'static str = "Made by botmert \u{2661}";

    pub const FOOTER_ICON: &'static str = "https://i.imgur.com/8uTFXwR.png";

    pub const BTN_PREV: &'static str = "page_prev";

    pub const BTN_NEXT: &'static str = "page_next";

    pub const BTN_CHOOSE: &'static str = "page_choose";

    pub const BTN_FIRST: &'static str = "page_first";

    pub const BTN_LAST: &'static str = "page_last";

    pub const MODAL_CHOOSE: &'static str = "modal_choose";
}

/// How a button looks.
pub enum ButtonStyle {
    Primary,
    Secondary,
    Success,
    Danger,
}

/// A button of the page navigation row.
pub struct NavButton {
    pub custom_id: &'static str,
    pub label: String,
    pub disabled: bool,
    pub style: ButtonStyle,
}

/// A button as its id, label and whether it is disabled.
pub open spec fn button_view(b: NavButton) -> (Seq<char>, Seq<char>, bool) {
    (b.custom_id@, b.label@, b.disabled)
}

/// The label of the page button: the page counted from 1, a slash, and the number of pages.
pub open spec fn page_label(page: nat, total_pages: nat) -> Seq<char> {
    decimal(page + 1) + seq!['/'] + decimal(total_pages)
}

/// The navigation row for `page` of `total_pages`: First and Back are disabled on the
/// first page, Next and Last on the last, and everything when `disabled`.
pub open spec fn nav_row_spec(page: nat, total_pages: nat, disabled: bool) -> Seq<
    (Seq<char>, Seq<char>, bool),
> {
    let at_first = disabled || page == 0;
    let at_last = disabled || page + 1 >= total_pages;
    seq![
        (Tracker::BTN_FIRST@, "First"@, at_first),
        (Tracker::BTN_PREV@, "Back"@, at_first),
        (Tracker::BTN_CHOOSE@, page_label(page, total_pages), disabled),
        (Tracker::BTN_NEXT@, "Next"@, at_last),
        (Tracker::BTN_LAST@, "Last"@, at_last),
    ]
}

/// The page that a navigation button leads to from `page` of `total_pages`.
pub open spec fn target_page(id: Seq<char>, page: nat, total_pages: nat) -> nat {
    if id == Tracker::BTN_FIRST@ {
        0
    } else if id == Tracker::BTN_PREV@ {
        if page > 0 {
            (page - 1) as nat
        } else {
            0
        }
    } else if id == Tracker::BTN_NEXT@ {
        if page + 1 < total_pages {
            page + 1
        } else {
            (total_pages - 1) as nat
        }
    } else if id == Tracker::BTN_LAST@ {
        (total_pages - 1) as nat
    } else {
        page
    }
}

impl Tracker {
    /// The navigation row for `page` of `total_pages`.
    pub fn create_nav_row(page: usize, total_pages: usize, disabled: bool) -> (r: Vec<NavButton>)
        requires
            page < usize::MAX,
        ensures
            r@.map_values(|b: NavButton| button_view(b)) == nav_row_spec(
                page as nat,
                total_pages as nat,
                disabled,
            ),
            forall|i: int| 0 <= i < r@.len() ==> #[trigger] r@[i].style == ButtonStyle::Secondary,
    {
        let at_first = disabled || page == 0;
        let at_last = disabled || page + 1 >= total_pages;
        let mut label = String::new();
        push_decimal(&mut label, page + 1);
        crate::chars::push_char(&mut label, '/');
        push_decimal(&mut label, total_pages);
        assert(label@ =~= page_label(page as nat, total_pages as nat));
        let r = vec![
            NavButton {
                custom_id: Self::BTN_FIRST,
                label: String::from_str("First"),
                disabled: at_first,
                style: ButtonStyle::Secondary,
            },
            NavButton {
                custom_id: Self::BTN_PREV,
                label: String::from_str("Back"),
                disabled: at_first,
                style: ButtonStyle::Secondary,
            },
            NavButton { custom_id: Self::BTN_CHOOSE, label, disabled, style: ButtonStyle::Secondary },
            NavButton {
                custom_id: Self::BTN_NEXT,
                label: String::from_str("Next"),
                disabled: at_last,
                style: ButtonStyle::Secondary,
            },
            NavButton {
                custom_id: Self::BTN_LAST,
                label: String::from_str("Last"),
                disabled: at_last,
                style: ButtonStyle::Secondary,
            },
        ];
        assert(r@.map_values(|b: NavButton| button_view(b)) =~= nav_row_spec(
            page as nat,
            total_pages as nat,
            disabled,
        ));
        r
    }

    /// The navigation row while the buttons can be used.
    pub fn enabled_nav_row(page: usize, total_pages: usize) -> (r: Vec<NavButton>)
        requires
            page < usize::MAX,
        ensures
            r@.map_values(|b: NavButton| button_view(b)) == nav_row_spec(
                page as nat,
                total_pages as nat,
                false,
            ),
            forall|i: int| 0 <= i < r@.len() ==> #[trigger] r@[i].style == ButtonStyle::Secondary,
    {
        Self::create_nav_row(page, total_pages, false)
    }

    /// The navigation row once it can no longer be used.
    pub fn disabled_nav_row() -> (r: Vec<NavButton>)
        ensures
            r@.map_values(|b: NavButton| button_view(b)) == nav_row_spec(0, 0, true),
            forall|i: int| 0 <= i < r@.len() ==> #[trigger] r@[i].style == ButtonStyle::Secondary,
    {
        Self::create_nav_row(0, 0, true)
    }
}

/// What the page typed into the page dialog means.
pub enum PageChoice {
    /// Not a number.
    NotANumber,
    /// A number outside 1 to the number of pages.
    OutOfRange,
    /// The page, counted from 0.
    Chosen(usize),
}

/// What the page dialog's text means for `total_pages` pages: the trimmed text must
/// be a number from 1 to `total_pages`.
pub open spec fn page_choice_spec(value: Seq<char>, total_pages: nat) -> PageChoice {
    match parse_usize_spec(trim(value)) {
        None => PageChoice::NotANumber,
        Some(p) => if p == 0 || p > total_pages {
            PageChoice::OutOfRange
        } else {
            PageChoice::Chosen((p - 1) as usize)
        },
    }
}

impl Tracker {
    /// Reads the page typed into the page dialog.
    pub fn choose_page(value: &str, total_pages: usize) -> (r: PageChoice)
        ensures
            r == page_choice_spec(value@, total_pages as nat),
    {
        let trimmed = trim_chars(&chars_of(value));
        match parse_usize(&trimmed) {
            None => PageChoice::NotANumber,
            Some(p) => {
                if p == 0 || p > total_pages {
                    PageChoice::OutOfRange
                } else {
                    PageChoice::Chosen(p - 1)
                }
            },
        }
    }

    /// The answer to a page outside the range: "Page must be between 1 and N."
    pub fn page_range_message(total_pages: usize) -> (r: String)
        ensures
            r@ == "Page must be between 1 and "@ + decimal(total_pages as nat) + "."@,
    {
        let mut r = String::from_str("Page must be between 1 and ");
        push_decimal(&mut r, total_pages);
        r.append(".");
        r
    }

    /// The description of the answer to a search that found nothing:
    /// `No result found for "QUERY"`.
    pub fn no_result_message(query: &str) -> (r: String)
        ensures
            r@ == "No result found for \""@ + query@ + "\""@,
    {
        let mut r = String::from_str("No result found for \"");
        r.append(query);
        r.append("\"");
        r
    }
}

/// Something that happens while a result list is shown.
pub enum NavEvent {
    /// Nobody pressed a button in time.
    TimedOut,
    /// A button with this id was pressed.
    Pressed(String),
    /// The page dialog was answered with this page (counted from 0), or not usefully.
    PageChosen(Option<usize>),
}

/// What to do in answer to a `NavEvent`.
pub enum NavAction {
    /// Show the disabled navigation row and stop listening.
    Disable,
    /// Ask for a page in a dialog, and report the answer as `PageChosen`.
    AskPage,
    /// Acknowledge the button press, and show the new page when `redraw`.
    Acknowledge { redraw: bool },
    /// Show the new page.
    Redraw,
    /// Nothing to show.
    Nothing,
}

/// The page shown of a list of results.
pub struct Paginator {
    page: usize,
    total_pages: usize,
}

impl Paginator {
    /// The page shown is one of the pages.
    #[verifier::type_invariant]
    spec fn page_in_range(&self) -> bool {
        self.page < self.total_pages
    }

    /// The page shown, counted from 0.
    pub closed spec fn spec_page(&self) -> nat {
        self.page as nat
    }

    /// The number of pages.
    pub closed spec fn spec_total(&self) -> nat {
        self.total_pages as nat
    }

    /// The page shown is one of the pages.
    pub open spec fn wf(&self) -> bool {
        self.spec_page() < self.spec_total()
    }

    /// Shows the first of `total_pages` pages.
    pub fn new(total_pages: usize) -> (r: Paginator)
        requires
            total_pages > 0,
        ensures
            r.wf(),
            r.spec_page() == 0,
            r.spec_total() == total_pages,
    {
        Paginator { page: 0, total_pages }
    }

    /// The page shown, counted from 0.
    pub fn page(&self) -> (r: usize)
        ensures
            r == self.spec_page(),
            r < self.spec_total(),
    {
        proof {
            use_type_invariant(self);
        }
        self.page
    }

    /// The number of pages.
    pub fn total_pages(&self) -> (r: usize)
        ensures
            r == self.spec_total(),
    {
        self.total_pages
    }

    /// Moves to the page that `event` asks for, and says what to show.
    pub fn step(&mut self, event: &NavEvent) -> (a: NavAction)
        requires
            event matches NavEvent::PageChosen(Some(p)) ==> p < old(self).spec_total(),
        ensures
            final(self).wf(),
            final(self).spec_total() == old(self).spec_total(),
            match event {
                NavEvent::TimedOut => a == NavAction::Disable && final(self).spec_page()
                    == old(self).spec_page(),
                NavEvent::Pressed(id) => if id@ == Tracker::BTN_CHOOSE@ {
                    a == NavAction::AskPage && final(self).spec_page() == old(self).spec_page()
                } else {
                    &&& final(self).spec_page() == target_page(
                        id@,
                        old(self).spec_page(),
                        old(self).spec_total(),
                    )
                    &&& a == NavAction::Acknowledge {
                        redraw: final(self).spec_page() != old(self).spec_page(),
                    }
                },
                NavEvent::PageChosen(None) => a == NavAction::Nothing && final(self).spec_page()
                    == old(self).spec_page(),
                NavEvent::PageChosen(Some(p)) => {
                    &&& final(self).spec_page() == *p
                    &&& a == if *p != old(self).spec_page() {
                        NavAction::Redraw
                    } else {
                        NavAction::Nothing
                    }
                },
            },
    {
        proof {
            use_type_invariant(&*self);
        }
        match event {
            NavEvent::TimedOut => NavAction::Disable,
            NavEvent::Pressed(id) => {
                if same_text(id.as_str(), Tracker::BTN_CHOOSE) {
                    return NavAction::AskPage;
                }
                let page = self.page;
                let total = self.total_pages;
                let new_page = if same_text(id.as_str(), Tracker::BTN_FIRST) {
                    0
                } else if same_text(id.as_str(), Tracker::BTN_PREV) {
                    if page > 0 {
                        page - 1
                    } else {
                        0
                    }
                } else if same_text(id.as_str(), Tracker::BTN_NEXT) {
                    if page + 1 < total {
                        page + 1
                    } else {
                        total - 1
                    }
                } else if same_text(id.as_str(), Tracker::BTN_LAST) {
                    total - 1
                } else {
                    page
                };
                self.page = new_page;
                NavAction::Acknowledge { redraw: new_page != page }
            },
            NavEvent::PageChosen(None) => NavAction::Nothing,
            NavEvent::PageChosen(Some(p)) => {
                if *p != self.page {
                    self.page = *p;
                    NavAction::Redraw
                } else {
                    NavAction::Nothing
                }
            },
        }
    }
}

} // verus!
