use wlrix_desktop::layout::{Point, Rect};
use wlrix_desktop::menu::{Action, Menu};


fn menu(selected: usize) -> Menu {
    Menu::new(Point::new(100, 100), selected)
}

/// The middle of row `index`.
fn middle(menu: &Menu, index: usize) -> Point {
    let row = menu.row(index);
    Point::new(row.x + row.w / 2, row.y + row.h / 2)
}

/// The index of the row with this action.
fn row_of(menu: &Menu, action: Action) -> usize {
    menu.entries
        .iter()
        .position(|entry| entry.action() == Some(action))
        .unwrap_or_else(|| panic!("{action:?} is not in the menu"))
}

#[test]
fn the_menu_starts_with_a_centred_header() {
    let menu = menu(0);
    assert!(menu.entries[0].is_header());
    assert_eq!(menu.entries[0].label, "Desktop");
    assert_eq!(
        menu.entries[0].action(),
        None,
        "the header is not choosable"
    );
}

#[test]
fn the_items_are_in_the_order_irix_had_them() {
    let menu = menu(1);
    let labels: Vec<&str> = menu
        .entries
        .iter()
        .filter(|entry| !entry.is_separator() && !entry.is_header())
        .map(|entry| entry.label)
        .collect();
    assert_eq!(
        labels,
        [
            "Log Out",
            "Open",
            "Make Copy",
            "Make Reference",
            "Remove",
            "Change Permissions",
            "Add New Directory",
            "Select All",
        ]
    );
}

#[test]
fn there_are_two_separators_in_the_right_places() {
    let menu = menu(0);
    let separators: Vec<usize> = menu
        .entries
        .iter()
        .enumerate()
        .filter(|(_, entry)| entry.is_separator())
        .map(|(index, _)| index)
        .collect();
    assert_eq!(separators.len(), 2);
    // One after Log Out, one after Remove.
    assert_eq!(separators[0], row_of(&menu, Action::LogOut) + 1);
    assert_eq!(separators[1], row_of(&menu, Action::Remove) + 1);
}

#[test]
fn open_and_remove_need_a_selection() {
    let empty = menu(0);
    for action in [Action::Open, Action::Remove] {
        assert!(
            !empty.entries[row_of(&empty, action)].enabled,
            "{action:?} should be disabled with nothing selected"
        );
    }

    let picked = menu(3);
    for action in [Action::Open, Action::Remove] {
        assert!(
            picked.entries[row_of(&picked, action)].enabled,
            "{action:?} should be enabled with a selection"
        );
    }
}

#[test]
fn log_out_and_select_all_are_always_available() {
    for selected in [0, 1, 5] {
        let menu = menu(selected);
        for action in [Action::LogOut, Action::SelectAll] {
            assert!(menu.entries[row_of(&menu, action)].enabled, "{action:?}");
        }
    }
}

#[test]
fn the_unimplemented_items_are_drawn_but_never_chosen() {
    // They are in the menu so its shape is right and the work to come has somewhere to
    // land; clicking one must do nothing at all.
    let menu = menu(3);
    for action in [
        Action::MakeCopy,
        Action::MakeReference,
        Action::ChangePermissions,
        Action::AddNewDirectory,
    ] {
        let index = row_of(&menu, action);
        assert!(
            !menu.entries[index].enabled,
            "{action:?} should be disabled"
        );
        assert_eq!(
            menu.action_at(middle(&menu, index)),
            None,
            "{action:?} should not be choosable"
        );
    }
}

#[test]
fn clicking_a_row_chooses_its_action() {
    let menu = menu(2);
    for action in [
        Action::LogOut,
        Action::Open,
        Action::Remove,
        Action::SelectAll,
    ] {
        let index = row_of(&menu, action);
        assert_eq!(menu.action_at(middle(&menu, index)), Some(action));
    }
}

#[test]
fn the_header_and_separators_choose_nothing() {
    let menu = menu(2);
    for (index, entry) in menu.entries.iter().enumerate() {
        if entry.is_header() || entry.is_separator() {
            assert_eq!(menu.action_at(middle(&menu, index)), None, "row {index}");
        }
    }
}

#[test]
fn a_click_outside_the_panel_chooses_nothing() {
    let menu = menu(2);
    let panel = menu.panel();
    for point in [
        Point::new(panel.x - 1, panel.y + 10),
        Point::new(panel.x + panel.w + 1, panel.y + 10),
        Point::new(panel.x + 10, panel.y - 1),
        Point::new(panel.x + 10, panel.y + panel.h + 1),
    ] {
        assert!(!menu.contains(point), "{point:?} should be off the panel");
        assert_eq!(menu.action_at(point), None);
    }
}

#[test]
fn rows_stack_in_order_inside_the_panel() {
    let menu = menu(1);
    let panel = menu.panel();
    let mut previous_bottom = panel.y;
    for index in 0..menu.entries.len() {
        let row = menu.row(index);
        assert!(
            row.y >= previous_bottom,
            "row {index} overlaps the one above"
        );
        assert!(row.x > panel.x, "row {index} is not inset from the panel");
        assert!(
            row.x + row.w < panel.x + panel.w,
            "row {index} runs past the panel"
        );
        assert!(
            row.y + row.h <= panel.y + panel.h,
            "row {index} runs past the bottom"
        );
        previous_bottom = row.y + row.h;
    }
}

#[test]
fn hovering_tracks_only_the_rows_that_can_be_chosen() {
    let mut menu = menu(0);
    let log_out = row_of(&menu, Action::LogOut);
    assert!(menu.hover(middle(&menu, log_out)));
    assert_eq!(menu.hovered, Some(log_out));
    // The same row again is not a change, so nothing redraws.
    assert!(!menu.hover(middle(&menu, log_out)));

    // A disabled row does not highlight.
    let open = row_of(&menu, Action::Open);
    assert!(menu.hover(middle(&menu, open)));
    assert_eq!(menu.hovered, None, "Open is disabled with no selection");

    // Nor does the header, a separator, or anywhere off the panel.
    menu.hover(middle(&menu, log_out));
    assert!(menu.hover(Point::new(0, 0)));
    assert_eq!(menu.hovered, None);
}

#[test]
fn a_menu_posted_near_a_corner_is_pulled_back_on_screen() {
    // Otherwise the rows past the edge could never be reached.
    let area = Rect::new(0, 0, 1280, 800);
    let panel = Menu::size_for(1);

    let corner = Menu::clamp(Point::new(1270, 790), panel, area);
    assert!(corner.x + panel.w <= area.w, "runs off the right");
    assert!(corner.y + panel.h <= area.h, "runs off the bottom");

    // Somewhere with room is left where it was asked for.
    assert_eq!(
        Menu::clamp(Point::new(40, 40), panel, area),
        Point::new(40, 40)
    );
}

#[test]
fn a_menu_bigger_than_the_screen_still_starts_on_it() {
    // Clamping must not chase the far edge so hard that it pushes the near one off, which
    // would put the header and the first rows out of reach instead of the last ones.
    let panel = Menu::size_for(0);
    let area = Rect::new(0, 0, panel.w / 2, panel.h / 2);
    let placed = Menu::clamp(Point::new(100, 40), panel, area);
    assert_eq!(placed, Point::new(area.x, area.y));
}

#[test]
fn a_menu_is_pushed_only_as_far_as_it_needs() {
    // Wide enough for the panel but not much: it should sit against the right edge, not
    // jump to the left one.
    let panel = Menu::size_for(0);
    let area = Rect::new(0, 0, panel.w + 14, 800);
    let placed = Menu::clamp(Point::new(100, 40), panel, area);
    assert_eq!(placed.x, 14, "should rest against the right edge");
}

#[test]
fn the_rows_read_the_same_through_their_accessors() {
    let menu = menu(1);
    assert_eq!(menu.highlighted(), None);
    for index in 0..menu.entries.len() {
        let entry = menu.entry(index);
        assert_eq!(entry.text(), menu.entries[index].label);
        assert_eq!(entry.is_enabled(), menu.entries[index].enabled);
    }
    assert_eq!(menu.entry(0).text(), "Desktop");
    assert!(!menu.entry(0).is_enabled());
}
