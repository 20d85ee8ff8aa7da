use wlrix_desktop::entries::{Entry, Kind};
use wlrix_desktop::layout::{Grid, Metrics, Point, Rect, Spot};
use wlrix_desktop::state::{IconState, State, StateFile};


/// Write the state out and read it back, as saving and the next start do.
fn round_trip(state: &State) -> State {
    State::from_file(state.to_file())
}

fn icon(name: &str, slot: Option<i32>, x: Option<i32>, y: Option<i32>) -> IconState {
    IconState { name: name.to_owned(), slot, x, y }
}

fn grid() -> Grid {
    Grid::new(
        Rect::new(0, 0, 1280, 800),
        Metrics::default(),
    )
}

fn entry(name: &str) -> Entry {
    Entry {
        path: format!("/desktop/{name}"),
        name: name.to_owned(),
        label: name.to_owned(),
        kind: Kind::Plain,
        launcher: None,
    }
}

#[test]
fn laying_out_pins_every_icon_not_just_the_dragged_ones() {
    // The contract that makes the three tests below work at all.
    let mut state = State::default();
    let entries = [entry("a"), entry("b"), entry("c")];
    state.arrange(&grid(), &entries);
    assert_eq!(state.spot("a"), Some(Spot::Slot(0)));
    assert_eq!(state.spot("b"), Some(Spot::Slot(1)));
    assert_eq!(state.spot("c"), Some(Spot::Slot(2)));
}

#[test]
fn moving_one_icon_leaves_a_gap_instead_of_pulling_the_others_up() {
    // The bug from the KVM: only dragged icons had a remembered spot, so the untouched
    // ones below were re-handed the first free cells and slid up into the vacancy.
    let mut state = State::default();
    let entries = [entry("a"), entry("b"), entry("c"), entry("d")];
    let grid = grid();
    state.arrange(&grid, &entries);

    // Drag `b` off to a free position, as a drop would.
    state.set_spot("b", Spot::Free(Point::new(400, 300)));
    let after = state.arrange(&grid, &entries);

    assert_eq!(after[0].spot, Spot::Slot(0), "a should not have moved");
    assert_eq!(after[2].spot, Spot::Slot(2), "c should not have slid up");
    assert_eq!(after[3].spot, Spot::Slot(3), "d should not have slid up");
    assert_eq!(after[1].spot, Spot::Free(Point::new(400, 300)));
}

#[test]
fn deleting_a_file_leaves_a_gap_too() {
    // Same failure, different trigger: cell 1 falling vacant must not pull 2 and 3 up.
    let mut state = State::default();
    let grid = grid();
    state.arrange(&grid, &[entry("a"), entry("b"), entry("c"), entry("d")]);

    let survivors = [entry("a"), entry("c"), entry("d")];
    state.retain_only(&survivors.iter().map(|e| e.name.clone()).collect::<Vec<_>>());
    let after = state.arrange(&grid, &survivors);

    assert_eq!(after[0].spot, Spot::Slot(0));
    assert_eq!(after[1].spot, Spot::Slot(2), "c should stay where it was");
    assert_eq!(after[2].spot, Spot::Slot(3), "d should stay where it was");
}

#[test]
fn a_new_file_takes_a_free_cell_without_disturbing_anything() {
    // `aa` sorts between `a` and `b`, so unpinned it would take cell 1 and push `b` and
    // `c` down a cell each.
    let mut state = State::default();
    let grid = grid();
    state.arrange(&grid, &[entry("a"), entry("b"), entry("c")]);

    let grown = [entry("a"), entry("aa"), entry("b"), entry("c")];
    let after = state.arrange(&grid, &grown);
    assert_eq!(after[0].spot, Spot::Slot(0), "a stays");
    assert_eq!(after[2].spot, Spot::Slot(1), "b stays");
    assert_eq!(after[3].spot, Spot::Slot(2), "c stays");
    assert_eq!(after[1].spot, Spot::Slot(3), "aa takes the first free cell");
}

#[test]
fn laying_out_the_same_desktop_twice_changes_nothing() {
    // Pinning must not make every redraw dirty the state file.
    let mut state = State::default();
    let grid = grid();
    let entries = [entry("a"), entry("b")];
    state.arrange(&grid, &entries);
    let mut state = round_trip(&state);

    state.arrange(&grid, &entries);
    assert!(
        !state.is_dirty(),
        "an unchanged layout should not be rewritten"
    );
}

#[test]
fn slots_and_free_points_survive_a_round_trip() {
    let mut state = State::default();
    state.set_spot("notes.txt", Spot::Slot(3));
    state.set_spot("photo.png", Spot::Free(Point::new(412, 260)));
    state.set_snap_to_grid(true);

    let back = round_trip(&state);
    assert_eq!(back.spot("notes.txt"), Some(Spot::Slot(3)));
    assert_eq!(
        back.spot("photo.png"),
        Some(Spot::Free(Point::new(412, 260)))
    );
    assert!(back.snap_to_grid(false));
}

#[test]
fn an_unset_snap_falls_back_to_the_config() {
    // First run: the state file has no opinion, so the hand-edited default stands.
    let state = State::default();
    assert!(state.snap_to_grid(true));
    assert!(!state.snap_to_grid(false));
}

#[test]
fn a_set_snap_beats_the_config() {
    let mut state = State::default();
    state.set_snap_to_grid(false);
    assert!(!state.snap_to_grid(true), "the state file should win");
}

#[test]
fn only_real_changes_mark_it_dirty() {
    let mut state = State::default();
    assert!(!state.is_dirty());
    state.set_spot("a", Spot::Slot(1));
    assert!(state.is_dirty());

    let mut state = round_trip(&state);
    assert!(!state.is_dirty(), "a freshly loaded state is clean");
    // Setting the same value again is not a change, so a redraw that re-asserts every
    // position does not rewrite the file.
    state.set_spot("a", Spot::Slot(1));
    assert!(!state.is_dirty());
    state.set_spot("a", Spot::Slot(2));
    assert!(state.is_dirty());
}

#[test]
fn positions_for_departed_files_are_dropped() {
    let mut state = State::default();
    state.set_spot("stays", Spot::Slot(0));
    state.set_spot("goes", Spot::Slot(1));
    let mut state = round_trip(&state);

    state.retain_only(&["stays".to_owned()]);
    assert_eq!(state.spot("stays"), Some(Spot::Slot(0)));
    assert_eq!(state.spot("goes"), None);
    assert!(state.is_dirty());
}

#[test]
fn retaining_everything_changes_nothing() {
    let mut state = State::default();
    state.set_spot("a", Spot::Slot(0));
    let mut state = round_trip(&state);
    state.retain_only(&["a".to_owned()]);
    assert!(!state.is_dirty(), "no change means no rewrite");
}

#[test]
fn a_malformed_entry_is_skipped_not_fatal() {
    // Half a free position, and a negative slot: neither is usable, but the rest of the
    // file must still load.
    let file = StateFile {
        snap_to_grid: None,
        icons: vec![
            icon("broken", None, Some(10), None),
            icon("negative", Some(-1), None, None),
            icon("fine", Some(2), None, None),
        ],
    };
    let state = State::from_file(file);
    assert_eq!(state.spot("broken"), None);
    assert_eq!(state.spot("negative"), None);
    assert_eq!(state.spot("fine"), Some(Spot::Slot(2)));
}

#[test]
fn a_slot_wins_over_a_stray_free_point() {
    let file = StateFile {
        snap_to_grid: None,
        icons: vec![icon("both", Some(5), Some(1), Some(2))],
    };
    let state = State::from_file(file);
    assert_eq!(state.spot("both"), Some(Spot::Slot(5)));
}

#[test]
fn the_file_is_written_in_a_stable_order() {
    // So a diff of the state file shows only what moved, not a reshuffle.
    let mut state = State::default();
    for name in ["zebra", "apple", "mango"] {
        state.set_spot(name, Spot::Slot(0));
    }
    let names: Vec<String> = state.to_file().icons.into_iter().map(|icon| icon.name).collect();
    assert_eq!(names, ["apple", "mango", "zebra"]);
}
