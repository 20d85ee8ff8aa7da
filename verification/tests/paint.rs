use wlrix_desktop::canvas::{Canvas, Rect, Rgb};
use wlrix_desktop::entries::{Entry, Kind, Launcher};
use wlrix_desktop::layout::{Grid, Metrics, Placed, Point, Rect as LayoutRect, Spot};
use wlrix_desktop::paint::{carpet_key, cell_for, icon_square, is_running, label_area, tint_for, Tint};
use wlrix_desktop::running::Running;
use wlrix_desktop::select::Selection;

fn grid() -> Grid {
    Grid::new(LayoutRect::new(0, 0, 1280, 800), Metrics::default())
}

fn entry(name: &str, launcher: Option<Launcher>) -> Entry {
    Entry {
        path: format!("/desktop/{name}"),
        name: name.to_owned(),
        label: name.to_owned(),
        kind: if launcher.is_some() { Kind::Launcher } else { Kind::Plain },
        launcher,
    }
}

fn placed(names: &[&str]) -> Vec<Placed> {
    let grid = grid();
    names
        .iter()
        .enumerate()
        .map(|(index, name)| Placed {
            entry: entry(name, None),
            spot: Spot::Slot(index as i32),
            rect: grid.slot_rect(index as i32),
        })
        .collect()
}

fn launcher(is_application: bool, identity: &str) -> Launcher {
    Launcher {
        is_application,
        icon: None,
        running_icon: None,
        identities: vec![identity.to_owned()],
    }
}

fn running_with(app_id: &str) -> Running {
    let mut running = Running::default();
    running.window(1, app_id);
    running
}

#[test]
fn selection_beats_hover() {
    // A selected icon the pointer happens to be over must stay yellow, not flick to
    // white as the pointer crosses it.
    let placed = placed(&["a"]);
    let mut selection = Selection::default();
    selection.hover(
        &placed,
        Point::new(placed[0].rect.x + 4, placed[0].rect.y + 4),
    );
    selection.press(
        &placed,
        Point::new(placed[0].rect.x + 4, placed[0].rect.y + 4),
        0,
    );
    assert_eq!(tint_for(&selection, "a"), Tint::Selected);
}

#[test]
fn an_untouched_icon_is_plain() {
    let selection = Selection::default();
    assert_eq!(tint_for(&selection, "a"), Tint::Normal);
}

#[test]
fn a_glyph_edge_over_bare_desktop_stays_partly_transparent() {
    // Premultiplied source-over, not the old interpolation: an antialiased edge drawn on
    // nothing must come out partly transparent, not blended against opaque black.
    let pixels = vec![0u8; 4];
    let mut canvas = Canvas::new(pixels, 1, 1);
    canvas.clear_transparent();
    canvas.blend(0, 0, Rgb(0xff_ffffff), 128);

    let pixel = canvas.get(0, 0).0;
    let alpha = (pixel >> 24) as u8;
    assert!(
        (127..=129).contains(&alpha),
        "half coverage should give about half alpha, got {alpha}"
    );
    // Premultiplied: no channel may exceed the alpha.
    for shift in [16, 8, 0] {
        let channel = ((pixel >> shift) & 0xff) as u8;
        assert!(channel <= alpha, "channel {channel} exceeds alpha {alpha}");
    }
}

#[test]
fn a_hovered_icon_is_lit() {
    let placed = placed(&["a", "b"]);
    let mut selection = Selection::default();
    selection.hover(&placed, Point::new(placed[0].rect.x + 4, placed[0].rect.y + 4));
    assert_eq!(tint_for(&selection, "a"), Tint::Hover);
    assert_eq!(tint_for(&selection, "b"), Tint::Normal);
}

#[test]
fn an_application_with_a_matching_window_is_running() {
    let app = entry("thing.desktop", Some(launcher(true, "thing")));
    assert!(!is_running(&app, &Running::default()));
    assert!(is_running(&app, &running_with("Thing")));
    assert!(!is_running(&app, &running_with("something-else")));
}

#[test]
fn a_link_or_a_plain_file_is_never_running() {
    let link = entry("site.desktop", Some(launcher(false, "site")));
    assert!(!is_running(&link, &running_with("site")));
    let file = entry("notes.txt", None);
    assert!(!is_running(&file, &running_with("notes")));
}

#[test]
fn the_two_carpets_have_their_own_keys() {
    assert_eq!(carpet_key(true), "<wlrix:carpet-open>");
    assert_eq!(carpet_key(false), "<wlrix:carpet-closed>");
}

#[test]
fn a_dragged_icon_is_drawn_where_the_pointer_took_it() {
    let placed = placed(&["a", "b"]);
    let mut selection = Selection::default();
    let start = Point::new(placed[0].rect.x + 8, placed[0].rect.y + 8);
    selection.press(&placed, start, 0);
    assert_eq!(cell_for(&placed[0], &selection).x, placed[0].rect.x, "a press alone moves nothing");
    selection.motion(&placed, Point::new(start.x - 300, start.y + 200));
    let cell = cell_for(&placed[0], &selection);
    assert_eq!((cell.x, cell.y), (placed[0].rect.x - 300, placed[0].rect.y + 200));
    let other = cell_for(&placed[1], &selection);
    assert_eq!((other.x, other.y), (placed[1].rect.x, placed[1].rect.y), "b stays in its cell");
}

#[test]
fn the_icon_square_is_centred_at_the_top_of_its_cell_with_the_label_below() {
    let cell = Rect::new(100, 50, 96, 104);
    let square = icon_square(cell, 64);
    assert_eq!(square, Rect::new(116, 50, 64, 64));
    assert_eq!(label_area(cell, square.w), Rect::new(100, 118, 96, 36));
    // An icon bigger than the cell shrinks to fit it, and a label with no room has none.
    let tiny = Rect::new(0, 0, 40, 30);
    assert_eq!(icon_square(tiny, 64), Rect::new(5, 0, 30, 30));
    assert_eq!(label_area(tiny, 30).h, 0);
}
