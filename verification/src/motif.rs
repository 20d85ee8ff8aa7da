//! Motif's raised and sunken edges.
//!
//! Every panel, button and field in the Indigo Magic look is a rectangle with a beveled edge:
//! two light sides and two dark, so it reads as standing out of the screen or pressed into
//! it. Which pair goes where is the only difference between raised and sunken.
//!
//! The edge is `thickness` nested rings. Motif's convention: the top and left sides take the
//! light colour, the bottom and right take the dark, and the two off-diagonal corner pixels
//! go to the light side.

use vstd::prelude::*;

use crate::canvas::{col, covers, lemma_row_bound, row, Canvas, CanvasView, Rect, Rgb};

verus! {

/// A bevel drawn light-top-left, dark-bottom-right (raised) or the reverse (sunken).
#[derive(Debug, Clone, Copy, PartialEq, Eq, Structural)]
pub struct Bevel {
    pub top_left: Rgb,
    pub bottom_right: Rgb,
    pub thickness: i32,
}

impl Bevel {
    /// Standing out of the screen: light above and left.
    pub fn raised(top_shadow: Rgb, bottom_shadow: Rgb, thickness: i32) -> (r: Self)
        ensures
            r == (Bevel { top_left: top_shadow, bottom_right: bottom_shadow, thickness }),
    {
        Self { top_left: top_shadow, bottom_right: bottom_shadow, thickness }
    }

    /// Pressed into the screen: the light and dark swap, so the highlight is below.
    pub fn sunken(top_shadow: Rgb, bottom_shadow: Rgb, thickness: i32) -> (r: Self)
        ensures
            r == (Bevel { top_left: bottom_shadow, bottom_right: top_shadow, thickness }),
    {
        Self { top_left: bottom_shadow, bottom_right: top_shadow, thickness }
    }
}

/// A rectangle small enough that every ring of it, and every edge, stays in an `i32`.
pub open spec fn modest(rect: Rect) -> bool {
    &&& -0x1000_0000 <= rect.x <= 0x1000_0000
    &&& -0x1000_0000 <= rect.y <= 0x1000_0000
    &&& -0x1000_0000 <= rect.w <= 0x1000_0000
    &&& -0x1000_0000 <= rect.h <= 0x1000_0000
}

/// How many rings in from the edge of `rect` the point `(x, y)` is: its distance to the
/// nearest side.
pub open spec fn ring_of(rect: Rect, x: int, y: int) -> int {
    let a = x - rect.x;
    let b = rect.x + rect.w - 1 - x;
    let c = y - rect.y;
    let d = rect.y + rect.h - 1 - y;
    let ab = if a <= b {
        a
    } else {
        b
    };
    let cd = if c <= d {
        c
    } else {
        d
    };
    if ab <= cd {
        ab
    } else {
        cd
    }
}

/// The colour the bevel gives `(x, y)`, on the ring `ring_of` says it is on: the two corners
/// the edges disagree on, and the top and left sides, are light; the bottom and right sides
/// are dark.
pub open spec fn edge_colour(rect: Rect, bevel: Bevel, x: int, y: int) -> u32 {
    let d = ring_of(rect, x, y);
    let left = rect.x + d;
    let right = rect.x + rect.w - 1 - d;
    let top = rect.y + d;
    let bottom = rect.y + rect.h - 1 - d;
    if (x == right && y == top) || (x == left && y == bottom) {
        bevel.top_left.0
    } else if y == bottom || x == right {
        bevel.bottom_right.0
    } else {
        bevel.top_left.0
    }
}

/// The canvas with the first `rings` rings of `rect`'s bevel drawn.
pub open spec fn with_rings(c: CanvasView, rect: Rect, bevel: Bevel, rings: int) -> CanvasView {
    CanvasView {
        pixels: Seq::new(
            c.pixels.len(),
            |k: int|
                if covers(rect, c.width, k) && ring_of(rect, col(k, c.width), row(k, c.width))
                    < rings {
                    edge_colour(rect, bevel, col(k, c.width), row(k, c.width))
                } else {
                    c.pixels[k]
                },
        ),
        ..c
    }
}

/// Draw a beveled edge just inside `rect`, leaving the interior untouched.
pub fn draw(canvas: &mut Canvas, rect: Rect, bevel: Bevel)
    requires
        old(canvas).wf(),
        modest(rect),
        bevel.thickness <= 0x1000_0000,
    ensures
        final(canvas).wf(),
        final(canvas)@ == with_rings(old(canvas)@, rect, bevel, bevel.thickness as int),
{
    proof {
        crate::canvas::lemma_canvas_size(&*canvas);
    }
    let ghost start = canvas@;
    let ghost w = start.width;
    let mut ring: i32 = 0;
    proof {
        assert(with_rings(start, rect, bevel, 0).pixels =~= start.pixels);
    }
    while ring < bevel.thickness
        invariant
            canvas.wf(),
            canvas@.width == w,
            canvas@.height == start.height,
            w == start.width,
            canvas@.pixels.len() == start.pixels.len(),
            start.pixels.len() == w * start.height,
            0 <= w,
            0 <= start.height,
            start == old(canvas)@,
            modest(rect),
            bevel.thickness <= 0x1000_0000,
            0 <= ring,
            ring <= bevel.thickness || (bevel.thickness < 0 && ring == 0),
            canvas@ == with_rings(start, rect, bevel, ring as int),
        decreases bevel.thickness - ring,
    {
        let r = rect.inset(ring);
        if r.w <= 0 || r.h <= 0 {
            proof {
                // No point of the rectangle is this many rings in, so nothing is left to draw.
                assert forall|k: int| 0 <= k < start.pixels.len() implies #[trigger] canvas@.pixels[k]
                    == with_rings(start, rect, bevel, bevel.thickness as int).pixels[k] by {
                    lemma_row_bound(k, w, start.height);
                }
                assert(canvas@.pixels =~= with_rings(start, rect, bevel, bevel.thickness as int).pixels);
            }
            return ;
        }
        let top = r.top();
        let bottom = r.bottom() - 1;
        let left = r.left();
        let right = r.right() - 1;
        let ghost before = canvas@;
        let ghost n = start.pixels.len();
        canvas.fill_rect(Rect::new(r.x, r.y, r.w, 1), bevel.top_left);
        assert(canvas@.pixels.len() == n && canvas@.width == w && canvas@.height == start.height);
        canvas.fill_rect(Rect::new(r.x, r.y, 1, r.h), bevel.top_left);
        assert(canvas@.pixels.len() == n && canvas@.width == w && canvas@.height == start.height);
        canvas.fill_rect(Rect::new(r.x, bottom, r.w, 1), bevel.bottom_right);
        assert(canvas@.pixels.len() == n && canvas@.width == w && canvas@.height == start.height);
        canvas.fill_rect(Rect::new(right, r.y, 1, r.h), bevel.bottom_right);
        assert(canvas@.pixels.len() == n && canvas@.width == w && canvas@.height == start.height);
        canvas.put(right, top, bevel.top_left);
        assert(canvas@.pixels.len() == n && canvas@.width == w && canvas@.height == start.height);
        canvas.put(left, bottom, bevel.top_left);
        assert(canvas@.pixels.len() == n && canvas@.width == w && canvas@.height == start.height);
        proof {
            let h = start.height;
            assert forall|k: int| 0 <= k < start.pixels.len() implies #[trigger] canvas@.pixels[k]
                == with_rings(start, rect, bevel, ring + 1).pixels[k] by {
                lemma_row_bound(k, w, h);
                let px = col(k, w);
                let py = row(k, w);
                if on_canvas_at(w, h, right as int, top as int) {
                    crate::canvas::lemma_index(right as int, top as int, w);
                    assert(top * w + right < w * h) by (nonlinear_arith)
                        requires
                            0 <= right < w,
                            0 <= top < h,
                    ;
                }
                if on_canvas_at(w, h, left as int, bottom as int) {
                    crate::canvas::lemma_index(left as int, bottom as int, w);
                    assert(bottom * w + left < w * h) by (nonlinear_arith)
                        requires
                            0 <= left < w,
                            0 <= bottom < h,
                    ;
                }
                if k == top * w + right && on_canvas_at(w, h, right as int, top as int) {
                    assert(px == right && py == top);
                }
                if k == bottom * w + left && on_canvas_at(w, h, left as int, bottom as int) {
                    assert(px == left && py == bottom);
                }
            }
            assert(canvas@.pixels.len() == start.pixels.len());
            assert(canvas@.pixels =~= with_rings(start, rect, bevel, ring + 1).pixels);
            assert(canvas@ == with_rings(start, rect, bevel, ring + 1));
        }
        ring = ring + 1;
    }
    proof {
        if bevel.thickness < 0 {
            assert forall|k: int| 0 <= k < start.pixels.len() implies covers(rect, w, k) ==> ring_of(rect, col(k, w), row(k, w)) >= 0 by {}
            assert(with_rings(start, rect, bevel, bevel.thickness as int).pixels =~= start.pixels);
            assert(with_rings(start, rect, bevel, 0).pixels =~= start.pixels);
            assert(with_rings(start, rect, bevel, bevel.thickness as int) == with_rings(start, rect, bevel, 0));
            assert(canvas@ == with_rings(start, rect, bevel, bevel.thickness as int));
        } else {
            assert(ring == bevel.thickness);
            assert(canvas@ == with_rings(start, rect, bevel, bevel.thickness as int));
        }
        assert(start == old(canvas)@);
    }
}

/// Whether `(x, y)` is a pixel of a canvas `w` by `h`.
pub open spec fn on_canvas_at(w: int, h: int, x: int, y: int) -> bool {
    0 <= x < w && 0 <= y < h
}

/// A beveled panel: fill the interior, then edge it.
pub fn panel(canvas: &mut Canvas, rect: Rect, fill: Rgb, bevel: Bevel)
    requires
        old(canvas).wf(),
        modest(rect),
        bevel.thickness <= 0x1000_0000,
    ensures
        final(canvas).wf(),
        final(canvas)@ == with_rings(
            crate::canvas::with_rect(old(canvas)@, rect, fill.0),
            rect,
            bevel,
            bevel.thickness as int,
        ),
{
    canvas.fill_rect(rect, fill);
    draw(canvas, rect, bevel);
}

/// A single-pixel outline in `colour`, drawn just inside `rect`.
pub fn outline(canvas: &mut Canvas, rect: Rect, colour: Rgb)
    requires
        old(canvas).wf(),
        rect.fits(),
    ensures
        final(canvas).wf(),
        final(canvas)@.width == old(canvas)@.width,
        final(canvas)@.height == old(canvas)@.height,
        final(canvas)@.pixels == if rect.w <= 0 || rect.h <= 0 {
            old(canvas)@.pixels
        } else {
            Seq::new(
                old(canvas)@.pixels.len(),
                |k: int| if crate::canvas::on_outline(rect, old(canvas)@.width, k) {
                    colour.0
                } else {
                    old(canvas)@.pixels[k]
                },
            )
        },
{
    canvas.stroke_rect(rect, colour);
}

} // verus!
