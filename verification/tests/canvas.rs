use wlrix_desktop::canvas::{Canvas, Rect, Rgb};


#[test]
fn contains_uses_exclusive_edges() {
    let r = Rect::new(10, 10, 20, 20); // covers x 10..30, y 10..30
    assert!(r.contains(10, 10));
    assert!(r.contains(29, 29));
    assert!(!r.contains(30, 30)); // the next rect's corner
    assert!(!r.contains(9, 10));
}

#[test]
fn intersect_of_disjoint_rects_is_empty() {
    let a = Rect::new(0, 0, 10, 10);
    let b = Rect::new(20, 20, 10, 10);
    let hit = a.intersect(b);
    assert_eq!(hit.w, 0);
    assert_eq!(hit.h, 0);
}

#[test]
fn fill_and_read_back() {
    let buf = vec![0u8; 4 * 4 * 4];
    let mut canvas = Canvas::new(buf, 4, 4);
    canvas.fill_rect(Rect::new(1, 1, 2, 2), Rgb(0xff_123456));
    assert_eq!(canvas.get(1, 1), Rgb(0xff_123456));
    assert_eq!(canvas.get(0, 0), Rgb(0)); // untouched
    assert_eq!(canvas.get(3, 3), Rgb(0));
}

#[test]
fn drawing_off_canvas_is_clipped_not_a_panic() {
    let buf = vec![0u8; 4 * 4 * 4];
    let mut canvas = Canvas::new(buf, 4, 4);
    // Straddles every edge; must touch only the in-bounds pixels.
    canvas.fill_rect(Rect::new(-5, -5, 20, 20), Rgb(0xff_ffffff));
    canvas.put(100, 100, Rgb(0xff_ffffff));
    assert_eq!(canvas.get(0, 0), Rgb(0xff_ffffff));
    assert_eq!(canvas.get(3, 3), Rgb(0xff_ffffff));
}

#[test]
fn blend_extremes_match_the_endpoints() {
    let buf = vec![0u8; 4]; // one pixel
    let mut canvas = Canvas::new(buf, 1, 1);
    canvas.put(0, 0, Rgb(0xff00_0000));
    canvas.blend(0, 0, Rgb(0xffff_ffff), 0);
    assert_eq!(
        canvas.get(0, 0),
        Rgb(0xff00_0000),
        "zero coverage leaves it"
    );
    canvas.blend(0, 0, Rgb(0xffff_ffff), 255);
    assert_eq!(
        canvas.get(0, 0),
        Rgb(0xffff_ffff),
        "full coverage replaces it"
    );
}
