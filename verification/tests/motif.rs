use wlrix_desktop::canvas::{Canvas, Rect, Rgb};
use wlrix_desktop::motif::{draw, panel, Bevel};

/// A panel face: the mid gray the rings are drawn around.
const FACE: Rgb = Rgb(0xff_a0a0a0);

const LIGHT: Rgb = Rgb(0xff_e0e0e0);
const DARK: Rgb = Rgb(0xff_606060);

fn canvas(size: i32) -> Canvas {
    Canvas::new(vec![0u8; (size * size * 4) as usize], size, size)
}

#[test]
fn raised_puts_light_top_left_dark_bottom_right() {
    let mut c = canvas(8);
    let rect = Rect::new(0, 0, 8, 8);
    panel(&mut c, rect, FACE, Bevel::raised(LIGHT, DARK, 2));
    // A pixel on the top edge is light, one on the bottom edge is dark.
    assert_eq!(c.get(3, 0), LIGHT);
    assert_eq!(c.get(3, 7), DARK);
    assert_eq!(c.get(0, 3), LIGHT);
    assert_eq!(c.get(7, 3), DARK);
    // The interior kept the fill.
    assert_eq!(c.get(4, 4), FACE);
}

#[test]
fn sunken_is_the_reverse() {
    let mut c = canvas(8);
    panel(
        &mut c,
        Rect::new(0, 0, 8, 8),
        FACE,
        Bevel::sunken(LIGHT, DARK, 2),
    );
    // Now the top is dark and the bottom light -- pressed in.
    assert_eq!(c.get(3, 0), DARK);
    assert_eq!(c.get(3, 7), LIGHT);
}

#[test]
fn thickness_draws_that_many_rings() {
    let mut c = canvas(10);
    draw(
        &mut c,
        Rect::new(0, 0, 10, 10),
        Bevel::raised(LIGHT, DARK, 3),
    );
    // Three light rings deep on the top edge, then the untouched interior.
    assert_eq!(c.get(5, 0), LIGHT);
    assert_eq!(c.get(5, 1), LIGHT);
    assert_eq!(c.get(5, 2), LIGHT);
    assert_eq!(c.get(5, 3), Rgb(0));
}
