use wlrix_desktop::canvas::Rect;
use wlrix_desktop::emblem::{emblem, Stroke};
use wlrix_desktop::entries::Kind;

const KINDS: [Kind; 4] = [Kind::Directory, Kind::Plain, Kind::Executable, Kind::Launcher];

#[test]
fn the_folder_at_its_design_size() {
    assert_eq!(
        emblem(Kind::Directory, 64),
        vec![
            Stroke::Fill(Rect::new(4, 14, 22, 6)),
            Stroke::Fill(Rect::new(4, 18, 56, 34)),
            Stroke::Erase(Rect::new(7, 23, 50, 26)),
            Stroke::Outline(Rect::new(4, 18, 56, 34)),
        ]
    );
}

#[test]
fn the_folder_scales_with_the_icon() {
    // Half size: every unit halves, rounding down.
    assert_eq!(
        emblem(Kind::Directory, 32),
        vec![
            Stroke::Fill(Rect::new(2, 7, 11, 3)),
            Stroke::Fill(Rect::new(2, 9, 28, 17)),
            Stroke::Erase(Rect::new(3, 11, 25, 13)),
            Stroke::Outline(Rect::new(2, 9, 28, 17)),
        ]
    );
}

#[test]
fn a_sheet_of_paper_has_a_folded_corner_and_four_rules() {
    let strokes = emblem(Kind::Plain, 64);
    assert_eq!(strokes.len(), 1 + 12 + 1 + 4);
    assert_eq!(strokes[0], Stroke::Outline(Rect::new(12, 6, 40, 52)));
    // The fold runs down and left from the sheet's top-right pixel.
    assert_eq!(strokes[1], Stroke::Dot(51, 6));
    assert_eq!(strokes[12], Stroke::Dot(40, 17));
    assert_eq!(strokes[13], Stroke::Fill(Rect::new(40, 6, 12, 1)));
    assert_eq!(strokes[14], Stroke::Fill(Rect::new(19, 28, 26, 2)));
    assert_eq!(strokes[17], Stroke::Fill(Rect::new(19, 49, 26, 2)));
}

#[test]
fn an_executable_is_a_window_with_a_prompt() {
    let strokes = emblem(Kind::Executable, 64);
    assert_eq!(strokes.len(), 2 + 2 * 8 + 1);
    assert_eq!(strokes[0], Stroke::Outline(Rect::new(6, 12, 52, 40)));
    assert_eq!(strokes[1], Stroke::Fill(Rect::new(6, 12, 52, 6)));
    // The caret's two arms start apart and meet at its point.
    assert_eq!(strokes[2], Stroke::Fill(Rect::new(16, 28, 2, 2)));
    assert_eq!(strokes[3], Stroke::Fill(Rect::new(16, 42, 2, 2)));
    assert_eq!(strokes[16], Stroke::Fill(Rect::new(23, 35, 2, 2)));
    assert_eq!(strokes[17], Stroke::Fill(Rect::new(23, 35, 2, 2)));
    assert_eq!(strokes[18], Stroke::Fill(Rect::new(34, 42, 14, 2)));
}

#[test]
fn a_launcher_is_badged_with_a_solid_diamond() {
    let strokes = emblem(Kind::Launcher, 64);
    // Radius 12: rows of 1, 3, ..., 25, ..., 3, 1 pixels.
    assert_eq!(strokes.len(), 1 + 2 * 12 * 12 + 2 * 12 + 1);
    assert_eq!(strokes[1], Stroke::Dot(32, 20));
    assert_eq!(strokes[strokes.len() - 1], Stroke::Dot(32, 44));
    assert!(strokes.contains(&Stroke::Dot(20, 32)));
    assert!(strokes.contains(&Stroke::Dot(44, 32)));
    assert!(!strokes.contains(&Stroke::Dot(21, 21)));
}

#[test]
fn no_emblem_draws_off_its_square() {
    for size in 1..=130 {
        for kind in KINDS {
            for stroke in emblem(kind, size) {
                let inside = |r: Rect| {
                    r.x >= 0 && r.y >= 0 && r.w >= 0 && r.h >= 0 && r.x + r.w <= size && r.y + r.h <= size
                };
                let ok = match stroke {
                    Stroke::Fill(r) | Stroke::Erase(r) | Stroke::Outline(r) => inside(r),
                    Stroke::Dot(x, y) => (0..size).contains(&x) && (0..size).contains(&y),
                };
                assert!(ok, "{kind:?} at {size}: {stroke:?}");
            }
        }
    }
}
