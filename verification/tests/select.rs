use wlrix_desktop::entries::{Entry, Kind};
use wlrix_desktop::layout::{Grid, Metrics, Placed, Point, Rect, Spot};
use wlrix_desktop::select::{Pressed, Selection, DOUBLE_CLICK_MS};


fn grid() -> Grid {
    Grid::new(Rect::new(0, 0, 1280, 800), Metrics::default())
}

fn placed(names: &[&str]) -> Vec<Placed> {
    let grid = grid();
    names
        .iter()
        .enumerate()
        .map(|(index, name)| Placed {
            entry: Entry {
                path: format!("/desktop/{name}"),
                name: (*name).to_owned(),
                label: (*name).to_owned(),
                kind: Kind::Plain,
                launcher: None,
            },
            spot: Spot::Slot(index as i32),
            rect: grid.slot_rect(index as i32),
        })
        .collect()
}

/// A press with a timestamp far from any other, so it is never half of a double-click.
///
/// Tests that care about the double-click clock pass their own times instead.
fn press(selection: &mut Selection, placed: &[Placed], point: Point) -> Pressed {
    // The wall clock in nanoseconds, a thousand ticks to each and wrapped to the pointer
    // clock's width: even presses a nanosecond apart are far past the threshold.
    let now = std::time::SystemTime::now()
        .duration_since(std::time::UNIX_EPOCH)
        .expect("after the epoch");
    let time = u32::try_from((now.as_nanos() * 1000) % (1u128 << 32)).expect("fits");
    selection.press(placed, point, time)
}

fn centre(item: &Placed) -> Point {
    Point::new(item.rect.x + item.rect.w / 2, item.rect.y + item.rect.h / 2)
}

#[test]
fn hovering_tracks_the_icon_under_the_pointer() {
    let placed = placed(&["a", "b"]);
    let mut selection = Selection::default();

    assert!(selection.hover(&placed, centre(&placed[0])));
    assert_eq!(selection.hovered(), Some("a"));
    // Same icon again is not a change, so nothing redraws.
    assert!(!selection.hover(&placed, centre(&placed[0])));

    assert!(selection.hover(&placed, centre(&placed[1])));
    assert_eq!(selection.hovered(), Some("b"));

    // Bare desktop.
    assert!(selection.hover(&placed, Point::new(5, 400)));
    assert_eq!(selection.hovered(), None);
}

#[test]
fn clicking_an_icon_selects_it_and_the_desktop_deselects() {
    let placed = placed(&["a", "b"]);
    let mut selection = Selection::default();

    press(&mut selection, &placed, centre(&placed[0]));
    assert!(selection.is_selected("a"));
    selection.release(&placed, &grid(), false);

    press(&mut selection, &placed, centre(&placed[1]));
    assert!(selection.is_selected("b"));
    selection.release(&placed, &grid(), false);

    press(&mut selection, &placed, Point::new(5, 400));
    assert!(selection.selected().is_empty());
}

#[test]
fn a_click_does_not_move_the_icon() {
    // The whole reason for the threshold: a press and release at nearly the same place
    // is a selection, not a one-pixel nudge.
    let placed = placed(&["a"]);
    let mut selection = Selection::default();
    let start = centre(&placed[0]);

    press(&mut selection, &placed, start);
    selection.motion(&placed, Point::new(start.x + 2, start.y + 1));
    assert!(!selection.is_dragging("a"), "2px is not a drag");
    assert!(selection.release(&placed, &grid(), false).is_empty());
}

#[test]
fn moving_past_the_threshold_becomes_a_drag() {
    let placed = placed(&["a"]);
    let mut selection = Selection::default();
    let start = centre(&placed[0]);

    press(&mut selection, &placed, start);
    // Left and down, away from the corner: dragging the top-right icon further right
    // would hit the clamp, which is its own test below.
    selection.motion(&placed, Point::new(start.x - 40, start.y + 40));
    assert!(selection.is_dragging("a"));

    let dropped = selection.release(&placed, &grid(), false);
    let dropped = dropped.first().expect("should have moved");
    assert_eq!(dropped.name, "a");
    let Spot::Free(point) = dropped.spot else {
        panic!("free placement expected with snap off");
    };
    // The icon keeps its grab offset, so it lands 40px from where it started.
    assert_eq!(point.x, placed[0].rect.x - 40);
    assert_eq!(point.y, placed[0].rect.y + 40);
}

#[test]
fn a_drop_off_the_edge_is_pulled_back_on_screen() {
    // The first cell is already against the right margin, so dragging it further right
    // must not leave the icon half off the screen with no way to grab it again.
    let placed = placed(&["a"]);
    let grid = grid();
    let mut selection = Selection::default();
    let start = centre(&placed[0]);

    press(&mut selection, &placed, start);
    selection.motion(&placed, Point::new(start.x + 400, start.y + 400));
    let dropped = selection.release(&placed, &grid, false);
    let dropped = dropped.first().expect("should have moved");
    let Spot::Free(point) = dropped.spot else {
        panic!("free placement expected with snap off");
    };
    assert!(point.x + grid.metrics.cell_w <= grid.area.x + grid.area.w);
    assert!(point.y + grid.metrics.cell_h <= grid.area.y + grid.area.h);
}

#[test]
fn dropping_with_snap_on_lands_in_a_cell() {
    let placed = placed(&["a"]);
    let grid = grid();
    let mut selection = Selection::default();
    let start = centre(&placed[0]);

    press(&mut selection, &placed, start);
    // Somewhere over towards the middle of the screen.
    selection.motion(&placed, Point::new(start.x - 300, start.y + 200));
    let dropped = selection.release(&placed, &grid, true);
    let dropped = dropped.first().expect("should have moved");
    let Spot::Slot(index) = dropped.spot else {
        panic!("a slot expected with snap on");
    };
    assert!((0..grid.capacity()).contains(&index));
}

#[test]
fn a_drag_holds_the_hover() {
    // Dragging an icon over its neighbors must not make each of them light up in turn.
    let placed = placed(&["a", "b"]);
    let mut selection = Selection::default();
    let start = centre(&placed[0]);

    selection.hover(&placed, start);
    press(&mut selection, &placed, start);
    selection.motion(&placed, Point::new(start.x + 40, start.y + 40));
    assert!(!selection.hover(&placed, centre(&placed[1])));
    assert_eq!(selection.hovered(), Some("a"));
}

#[test]
fn the_dragged_icon_follows_the_pointer_from_where_it_was_grabbed() {
    let placed = placed(&["a"]);
    let mut selection = Selection::default();
    // Grab near the icon's bottom-right, not its center.
    let grab = Point::new(placed[0].rect.x + 70, placed[0].rect.y + 60);

    press(&mut selection, &placed, grab);
    selection.motion(&placed, Point::new(grab.x + 100, grab.y + 100));
    let delta = selection.drag_delta().expect("should be dragging");
    // The icon travels exactly as far as the pointer did, rather than jumping to center
    // itself under it: the grab offset is preserved because the delta is what moves.
    assert_eq!(delta, Point::new(100, 100));
}

#[test]
fn a_deleted_file_stops_being_hovered_or_selected() {
    let placed = placed(&["a", "b"]);
    let mut selection = Selection::default();
    selection.hover(&placed, centre(&placed[0]));
    press(&mut selection, &placed, centre(&placed[0]));
    selection.release(&placed, &grid(), false);

    selection.retain_only(&["b".to_owned()]);
    assert_eq!(selection.hovered(), None);
    assert!(selection.selected().is_empty());
}

#[test]
fn the_topmost_icon_is_the_one_grabbed() {
    // Two overlapping freely-placed icons: the one drawn last is the one picked up.
    let mut placed = placed(&["under", "over"]);
    placed[1].rect = placed[0].rect;
    let mut selection = Selection::default();
    press(&mut selection, &placed, centre(&placed[0]));
    assert!(selection.is_selected("over"));
}

// --- rubber band ----------------------------------------------------------------

/// A point on bare desktop, well away from the icon column on the right.
fn empty() -> Point {
    Point::new(40, 40)
}

/// The bottom-right corner of `index`'s cell, one pixel inside it.
fn corner(item: &Placed) -> Point {
    Point::new(item.rect.x + item.rect.w - 1, item.rect.y + item.rect.h - 1)
}

#[test]
fn dragging_from_bare_desktop_pulls_out_a_band() {
    let placed = placed(&["a"]);
    let mut selection = Selection::default();

    assert_eq!(selection.band(), None, "no band before a press");
    press(&mut selection, &placed, empty());
    // A press alone is a zero-sized band, which paints nothing.
    assert_eq!(selection.band(), Some(Rect::new(40, 40, 0, 0)));

    selection.motion(&placed, Point::new(140, 240));
    assert_eq!(selection.band(), Some(Rect::new(40, 40, 100, 200)));

    selection.release(&placed, &grid(), false);
    assert_eq!(selection.band(), None, "the band goes away on release");
}

#[test]
fn a_band_dragged_up_and_left_is_the_same_rectangle() {
    // Bands are dragged in every direction; the rect must normalize rather than come out
    // with a negative size and catch nothing.
    let placed = placed(&["a"]);
    let mut selection = Selection::default();
    press(&mut selection, &placed, Point::new(300, 300));
    selection.motion(&placed, Point::new(200, 100));
    assert_eq!(selection.band(), Some(Rect::new(200, 100, 100, 200)));
}

#[test]
fn a_band_selects_everything_it_touches() {
    let placed = placed(&["a", "b", "c"]);
    let mut selection = Selection::default();

    // From bare desktop across the first two cells.
    press(&mut selection, &placed, empty());
    selection.motion(&placed, corner(&placed[1]));

    assert!(selection.is_selected("a"));
    assert!(selection.is_selected("b"));
    assert!(!selection.is_selected("c"), "the band stopped short of c");
}

#[test]
fn shrinking_the_band_deselects_again() {
    // Recomputed from scratch each motion, so dragging past an icon and back must not
    // leave it selected.
    let placed = placed(&["a", "b"]);
    let mut selection = Selection::default();

    press(&mut selection, &placed, empty());
    selection.motion(&placed, corner(&placed[1]));
    assert!(selection.is_selected("b"));

    selection.motion(&placed, corner(&placed[0]));
    assert!(selection.is_selected("a"));
    assert!(!selection.is_selected("b"), "b should have been let go");
}

#[test]
fn a_click_on_bare_desktop_still_just_deselects() {
    let placed = placed(&["a"]);
    let mut selection = Selection::default();
    press(&mut selection, &placed, centre(&placed[0]));
    assert!(selection.is_selected("a"));

    // Press and release without moving: no band, nothing selected, nothing moved.
    press(&mut selection, &placed, empty());
    assert!(selection.release(&placed, &grid(), false).is_empty());
    assert!(selection.selected().is_empty());
}

// --- moving a selection together ------------------------------------------------

#[test]
fn pressing_a_selected_icon_drags_the_whole_selection() {
    let placed = placed(&["a", "b", "c"]);
    let mut selection = Selection::default();

    // Band the first two, then grab one of them.
    press(&mut selection, &placed, empty());
    selection.motion(&placed, corner(&placed[1]));
    selection.release(&placed, &grid(), false);

    press(&mut selection, &placed, centre(&placed[0]));
    selection.motion(
        &placed,
        Point::new(centre(&placed[0]).x - 200, centre(&placed[0]).y),
    );

    assert!(selection.is_dragging("a"));
    assert!(
        selection.is_dragging("b"),
        "the whole selection should move"
    );
    assert!(!selection.is_dragging("c"));
}

#[test]
fn a_group_moves_rigidly_and_all_of_it_is_dropped() {
    let placed = placed(&["a", "b", "c"]);
    let grid = grid();
    let mut selection = Selection::default();

    press(&mut selection, &placed, empty());
    selection.motion(&placed, corner(&placed[1]));
    selection.release(&placed, &grid, false);

    let start = centre(&placed[0]);
    press(&mut selection, &placed, start);
    selection.motion(&placed, Point::new(start.x - 200, start.y + 100));

    let mut dropped = selection.release(&placed, &grid, false);
    dropped.sort_by_key(|drop| drop.name.clone());
    assert_eq!(dropped.len(), 2, "both selected icons should have moved");

    // Every icon moved by the same delta, so the gaps between them are unchanged.
    for (drop, item) in dropped.iter().zip(placed.iter()) {
        let Spot::Free(point) = drop.spot else {
            panic!("free placement expected with snap off");
        };
        assert_eq!(
            point.x,
            item.rect.x - 200,
            "{} moved differently",
            drop.name
        );
        assert_eq!(
            point.y,
            item.rect.y + 100,
            "{} moved differently",
            drop.name
        );
    }
}

#[test]
fn clicking_one_icon_inside_a_group_narrows_to_it() {
    // The group is kept on *press* in case the click turns into a drag. When it does not,
    // the release collapses to the one clicked -- otherwise there is no way back to a
    // single selection except by clicking bare desktop first.
    let placed = placed(&["a", "b", "c"]);
    let grid = grid();
    let mut selection = Selection::default();

    press(&mut selection, &placed, empty());
    selection.motion(&placed, corner(&placed[1]));
    selection.release(&placed, &grid, false);
    assert_eq!(selection.selected().len(), 2);

    // Click one of the two, without moving.
    press(&mut selection, &placed, centre(&placed[1]));
    assert_eq!(selection.selected().len(), 2, "still a group while pressed");
    selection.release(&placed, &grid, false);
    assert_eq!(selection.selected(), ["b"], "the click should narrow it");
}

#[test]
fn dragging_a_group_keeps_the_group() {
    // The mirror of the test above: a press that *does* become a drag must not collapse.
    let placed = placed(&["a", "b"]);
    let grid = grid();
    let mut selection = Selection::default();

    press(&mut selection, &placed, empty());
    selection.motion(&placed, corner(&placed[1]));
    selection.release(&placed, &grid, false);

    let start = centre(&placed[0]);
    press(&mut selection, &placed, start);
    selection.motion(&placed, Point::new(start.x - 100, start.y));
    selection.release(&placed, &grid, false);
    assert_eq!(
        selection.selected().len(),
        2,
        "the group should survive a move"
    );
}

#[test]
fn pressing_an_unselected_icon_starts_over() {
    // Otherwise a click next to a band-selected group would quietly add to it, and there
    // would be no way to get back to a single selection.
    let placed = placed(&["a", "b", "c"]);
    let mut selection = Selection::default();

    press(&mut selection, &placed, empty());
    selection.motion(&placed, corner(&placed[1]));
    selection.release(&placed, &grid(), false);
    assert_eq!(selection.selected().len(), 2);

    press(&mut selection, &placed, centre(&placed[2]));
    assert_eq!(selection.selected(), ["c"]);
}

#[test]
fn a_deleted_file_leaves_a_group_drag_alone() {
    // A rescan mid-drag must drop the vanished icon without cancelling the move.
    let placed = placed(&["a", "b"]);
    let mut selection = Selection::default();

    press(&mut selection, &placed, empty());
    selection.motion(&placed, corner(&placed[1]));
    selection.release(&placed, &grid(), false);

    let start = centre(&placed[0]);
    press(&mut selection, &placed, start);
    selection.motion(&placed, Point::new(start.x - 100, start.y));

    selection.retain_only(&["a".to_owned()]);
    assert!(selection.is_dragging("a"), "a should still be moving");
    assert!(!selection.is_dragging("b"));
}

// --- double-click ---------------------------------------------------------------

#[test]
fn two_quick_presses_on_one_icon_open_it() {
    let placed = placed(&["a", "b"]);
    let mut selection = Selection::default();
    let at = centre(&placed[0]);

    let first = selection.press(&placed, at, 1_000);
    assert_eq!(first.activate, None, "one press only selects");
    let second = selection.press(&placed, at, 1_100);
    assert_eq!(second.activate.as_deref(), Some("a"));
}

#[test]
fn two_slow_presses_do_not() {
    let placed = placed(&["a"]);
    let mut selection = Selection::default();
    let at = centre(&placed[0]);

    selection.press(&placed, at, 1_000);
    let second = selection.press(&placed, at, 1_000 + DOUBLE_CLICK_MS + 1);
    assert_eq!(second.activate, None);
}

#[test]
fn two_presses_on_different_icons_do_not() {
    let placed = placed(&["a", "b"]);
    let mut selection = Selection::default();

    selection.press(&placed, centre(&placed[0]), 1_000);
    let second = selection.press(&placed, centre(&placed[1]), 1_050);
    assert_eq!(
        second.activate, None,
        "different icons are not a double-click"
    );
}

#[test]
fn a_third_press_does_not_open_it_again() {
    // Otherwise a rapid triple-click launches twice.
    let placed = placed(&["a"]);
    let mut selection = Selection::default();
    let at = centre(&placed[0]);

    selection.press(&placed, at, 1_000);
    assert!(selection.press(&placed, at, 1_080).activate.is_some());
    assert_eq!(selection.press(&placed, at, 1_160).activate, None);
    // ...but a fresh pair after that does open it again.
    assert!(selection.press(&placed, at, 1_240).activate.is_some());
}

#[test]
fn a_click_on_bare_desktop_between_the_two_breaks_it_up() {
    let placed = placed(&["a"]);
    let mut selection = Selection::default();
    let at = centre(&placed[0]);

    selection.press(&placed, at, 1_000);
    selection.press(&placed, Point::new(5, 400), 1_050);
    let third = selection.press(&placed, at, 1_100);
    assert_eq!(third.activate, None);
}

#[test]
fn dragging_an_icon_does_not_arm_a_double_click() {
    // Drag an icon somewhere and click it once: that should select, not open.
    let placed = placed(&["a"]);
    let mut selection = Selection::default();
    let at = centre(&placed[0]);

    selection.press(&placed, at, 1_000);
    selection.motion(&placed, Point::new(at.x - 60, at.y + 60));
    selection.release(&placed, &grid(), false);

    let next = selection.press(&placed, at, 1_100);
    assert_eq!(next.activate, None);
}

#[test]
fn the_pointer_clock_wrapping_is_not_a_double_click_storm() {
    // `time` is a free-running u32 of milliseconds and does wrap. Two presses either side
    // of the wrap are milliseconds apart in real time, so they *are* a double-click --
    // what must not happen is the subtraction going enormous and every press counting.
    let placed = placed(&["a"]);
    let mut selection = Selection::default();
    let at = centre(&placed[0]);

    selection.press(&placed, at, u32::MAX - 50);
    let across = selection.press(&placed, at, 49);
    assert_eq!(
        across.activate.as_deref(),
        Some("a"),
        "100ms apart across the wrap"
    );

    // And a genuinely distant pair still does not open.
    let mut selection = Selection::default();
    selection.press(&placed, at, u32::MAX - 50);
    let far = selection.press(&placed, at, 5_000);
    assert_eq!(far.activate, None);
}

#[test]
fn an_icon_dropped_mostly_over_a_cell_snaps_into_it() {
    // Cell 0 is (1172, 12, 96, 104). Pressed at its middle and moved 20px down, the icon's
    // rectangle is (1172, 32, 96, 104): it still mostly covers cell 0.
    let placed = placed(&["a"]);
    let grid = grid();
    let mut selection = Selection::default();
    selection.press(&placed, Point::new(1220, 64), 0);
    selection.motion(&placed, Point::new(1220, 84));
    let dropped = selection.release(&placed, &grid, true);
    assert_eq!(dropped.len(), 1);
    assert_eq!(dropped[0].name, "a");
    assert_eq!(dropped[0].spot, Spot::Slot(0));
}

#[test]
fn an_icon_dropped_mostly_over_the_next_cell_snaps_there() {
    // Moved 60px down, the rectangle (1172, 72, 96, 104) mostly covers cell 1, which starts
    // at y = 124: its centre (1220, 124) is nearer cell 1's centre (1220, 176) than cell 0's
    // (1220, 64).
    let placed = placed(&["a"]);
    let grid = grid();
    let mut selection = Selection::default();
    selection.press(&placed, Point::new(1220, 64), 0);
    selection.motion(&placed, Point::new(1220, 124));
    let dropped = selection.release(&placed, &grid, true);
    assert_eq!(dropped.len(), 1);
    assert_eq!(dropped[0].spot, Spot::Slot(1));
}
