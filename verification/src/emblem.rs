//! The icons drawn in code: a small IRIX-ish emblem for each kind of entry -- a folder, a
//! sheet of paper, a badged sheet for a launcher, a window with a prompt for an executable.
//!
//! The shapes are laid out on a notional 64-unit square and scaled, so an icon size other
//! than 64 keeps its proportions. They come out as strokes in the order they are drawn into
//! the icon's coverage mask: filled, erased and outlined rectangles, and single pixels at full
//! coverage. The mask itself belongs to the drawing code.

use vstd::prelude::*;

use crate::canvas::Rect;
use crate::entries::Kind;

verus! {

/// One thing drawn into an icon's coverage mask.
#[derive(Debug, Clone, Copy, PartialEq, Eq, Structural)]
pub enum Stroke {
    /// Full coverage over a rectangle.
    Fill(Rect),
    /// No coverage over a rectangle.
    Erase(Rect),
    /// Full coverage along a rectangle's one-pixel border.
    Outline(Rect),
    /// Full coverage at one pixel.
    Dot(i32, i32),
}

/// The sizes an emblem can be drawn at: every unit of the 64-unit square, scaled, stays an
/// `i32`.
pub open spec fn size_ok(size: int) -> bool {
    -i32::MAX <= 56 * size <= i32::MAX
}

/// `v` units of the 64-unit square at `size` pixels, truncated toward zero as integer division
/// does.
pub open spec fn unit(v: int, size: int) -> int {
    let n = v * size;
    if n >= 0 {
        n / 64
    } else {
        -((-n) / 64)
    }
}

/// Half of `n`, truncated toward zero.
pub open spec fn half(n: int) -> int {
    if n >= 0 {
        n / 2
    } else {
        -((-n) / 2)
    }
}

/// A count that is never negative: nothing for a negative one.
pub open spec fn count(n: int) -> nat {
    if n > 0 {
        n as nat
    } else {
        0
    }
}

/// A rectangle from plain integers.
pub open spec fn rect(x: int, y: int, w: int, h: int) -> Rect {
    Rect { x: x as i32, y: y as i32, w: w as i32, h: h as i32 }
}

/// The corner folded over on a sheet of paper, drawn as a diagonal from the top-right corner
/// of the sheet at `(x, y)`, `w` wide, down and to the left.
pub open spec fn fold(x: int, y: int, w: int, n: int) -> Seq<Stroke> {
    Seq::new(count(n), |step: int| Stroke::Dot((x + w - 1 - step) as i32, (y + step) as i32))
}

/// The four rule lines of a sheet of paper.
pub open spec fn rules(x: int, y: int, w: int, size: int) -> Seq<Stroke> {
    Seq::new(
        4,
        |line: int|
            Stroke::Fill(
                rect(
                    x + unit(7, size),
                    y + unit(22, size) + line * unit(7, size),
                    w - unit(14, size),
                    unit(2, size),
                ),
            ),
    )
}

/// A `>` prompt: for each step down its two arms, one small square on the upper arm and one on
/// the lower.
pub open spec fn caret(x: int, y: int, size: int) -> Seq<Stroke> {
    Seq::new(
        2 * count(unit(8, size)),
        |k: int|
            {
                let step = k / 2;
                if k % 2 == 0 {
                    Stroke::Fill(
                        rect(
                            x + unit(10, size) + step,
                            y + unit(16, size) + step,
                            unit(2, size),
                            unit(2, size),
                        ),
                    )
                } else {
                    Stroke::Fill(
                        rect(
                            x + unit(10, size) + step,
                            y + unit(30, size) - step,
                            unit(2, size),
                            unit(2, size),
                        ),
                    )
                }
            },
    )
}

/// Row `row` of a solid diamond of radius `r` centred on `(cx, cy)`: every pixel across it.
pub open spec fn diamond_row(cx: int, cy: int, r: int, row: int) -> Seq<Stroke> {
    let dy = row - r;
    let span = r - if dy < 0 {
        -dy
    } else {
        dy
    };
    Seq::new(count(2 * span + 1), |k: int| Stroke::Dot((cx - span + k) as i32, (cy + dy) as i32))
}

/// The first `rows` rows of a solid diamond, top down.
pub open spec fn diamond_rows(cx: int, cy: int, r: int, rows: int) -> Seq<Stroke>
    decreases rows,
{
    if rows <= 0 {
        seq![]
    } else {
        diamond_rows(cx, cy, r, rows - 1) + diamond_row(cx, cy, r, rows - 1)
    }
}

/// A solid diamond of radius `r` centred on `(cx, cy)`, row by row, each left to right.
pub open spec fn diamond(cx: int, cy: int, r: int) -> Seq<Stroke> {
    diamond_rows(cx, cy, r, count(2 * r + 1) as int)
}

/// The strokes of the emblem for `kind` at `size` pixels square, in drawing order.
pub open spec fn strokes(kind: Kind, size: int) -> Seq<Stroke> {
    let u = |v: int| unit(v, size);
    match kind {
        // A folder: a tab along the top left, then the body below it.
        Kind::Directory => seq![
            Stroke::Fill(rect(u(4), u(14), u(22), u(6))),
            Stroke::Fill(rect(u(4), u(18), u(56), u(34))),
            Stroke::Erase(rect(u(7), u(23), u(50), u(26))),
            Stroke::Outline(rect(u(4), u(18), u(56), u(34))),
        ],
        // A sheet of paper with the top-right corner folded over, and rule lines.
        Kind::Plain => {
            let (x, y, w, h) = (u(12), u(6), u(40), u(52));
            seq![Stroke::Outline(rect(x, y, w, h))] + fold(x, y, w, u(12)) + seq![
                Stroke::Fill(rect(x + w - u(12), y, u(12), 1)),
            ] + rules(x, y, w, size)
        },
        // A block with a title strip and a prompt, as a terminal or binary.
        Kind::Executable => {
            let (x, y, w, h) = (u(6), u(12), u(52), u(40));
            seq![Stroke::Outline(rect(x, y, w, h)), Stroke::Fill(rect(x, y, w, u(6)))] + caret(
                x,
                y,
                size,
            ) + seq![Stroke::Fill(rect(x + u(28), y + u(30), u(14), u(2)))]
        },
        // A sheet like Plain, but badged: a solid diamond marks "this starts something".
        Kind::Launcher => {
            let (x, y, w, h) = (u(12), u(6), u(40), u(52));
            seq![Stroke::Outline(rect(x, y, w, h))] + diamond(x + half(w), y + half(h), u(12))
        },
    }
}

/// `v` units of the 64-unit square at `size` pixels.
fn to_pixels(v: i32, size: i32) -> (r: i32)
    requires
        0 <= v <= 56,
        size_ok(size as int),
    ensures
        r == unit(v as int, size as int),
        -0x400_0000 <= r <= 0x400_0000,
{
    assert(-i32::MAX <= v * size <= i32::MAX) by (nonlinear_arith)
        requires
            0 <= v <= 56,
            -i32::MAX <= 56 * size <= i32::MAX,
    ;
    let n = v * size;
    if n >= 0 {
        n / 64
    } else {
        -((-n) / 64)
    }
}

/// Half of `n`, truncated toward zero.
fn halved(n: i32) -> (r: i32)
    requires
        -0x400_0000 <= n <= 0x400_0000,
    ensures
        r == half(n as int),
{
    if n >= 0 {
        n / 2
    } else {
        -((-n) / 2)
    }
}

/// Append the folded corner; see [`fold`].
fn push_fold(out: &mut Vec<Stroke>, x: i32, y: i32, w: i32, n: i32)
    requires
        -0x400_0000 <= x <= 0x400_0000,
        -0x400_0000 <= y <= 0x400_0000,
        -0x400_0000 <= w <= 0x400_0000,
        n <= 0x400_0000,
    ensures
        final(out)@ == old(out)@ + fold(x as int, y as int, w as int, n as int),
{
    let ghost start = out@;
    let mut step: i32 = 0;
    while step < n
        invariant
            0 <= step,
            n <= 0x400_0000,
            step <= n || (n <= 0 && step == 0),
            -0x400_0000 <= x <= 0x400_0000,
            -0x400_0000 <= y <= 0x400_0000,
            -0x400_0000 <= w <= 0x400_0000,
            out@ == start + fold(x as int, y as int, w as int, step as int),
        decreases n - step,
    {
        out.push(Stroke::Dot(x + w - 1 - step, y + step));
        assert(fold(x as int, y as int, w as int, step + 1) =~= fold(x as int, y as int, w as int, step as int).push(
            Stroke::Dot((x + w - 1 - step) as i32, (y + step) as i32),
        ));
        assert(out@ =~= start + fold(x as int, y as int, w as int, step + 1));
        step = step + 1;
    }
    assert(fold(x as int, y as int, w as int, step as int) =~= fold(x as int, y as int, w as int, n as int));
}

/// Append the rule lines; see [`rules`].
fn push_rules(out: &mut Vec<Stroke>, x: i32, y: i32, w: i32, size: i32)
    requires
        -0x400_0000 <= x <= 0x400_0000,
        -0x400_0000 <= y <= 0x400_0000,
        -0x400_0000 <= w <= 0x400_0000,
        size_ok(size as int),
    ensures
        final(out)@ == old(out)@ + rules(x as int, y as int, w as int, size as int),
{
    let ghost start = out@;
    let u2 = to_pixels(2, size);
    let u7 = to_pixels(7, size);
    let u14 = to_pixels(14, size);
    let u22 = to_pixels(22, size);
    let ghost all = rules(x as int, y as int, w as int, size as int);
    let mut line: i32 = 0;
    while line < 4
        invariant
            0 <= line <= 4,
            -0x400_0000 <= x <= 0x400_0000,
            -0x400_0000 <= y <= 0x400_0000,
            -0x400_0000 <= w <= 0x400_0000,
            -0x400_0000 <= u7 <= 0x400_0000,
            u2 == unit(2, size as int),
            u7 == unit(7, size as int),
            u14 == unit(14, size as int),
            u22 == unit(22, size as int),
            -0x400_0000 <= u14 <= 0x400_0000,
            -0x400_0000 <= u22 <= 0x400_0000,
            all == rules(x as int, y as int, w as int, size as int),
            out@ == start + all.take(line as int),
        decreases 4 - line,
    {
        assert(-4 * 0x400_0000 <= line * u7 <= 4 * 0x400_0000) by (nonlinear_arith)
            requires
                0 <= line <= 4,
                -0x400_0000 <= u7 <= 0x400_0000,
        ;
        out.push(Stroke::Fill(Rect::new(x + u7, y + u22 + line * u7, w - u14, u2)));
        assert(all.take(line + 1) =~= all.take(line as int).push(all[line as int]));
        assert(out@ =~= start + all.take(line + 1));
        line = line + 1;
    }
    assert(all.take(4) =~= all);
}

/// Append the prompt; see [`caret`].
fn push_caret(out: &mut Vec<Stroke>, x: i32, y: i32, size: i32)
    requires
        -0x400_0000 <= x <= 0x400_0000,
        -0x400_0000 <= y <= 0x400_0000,
        size_ok(size as int),
    ensures
        final(out)@ == old(out)@ + caret(x as int, y as int, size as int),
{
    let ghost start = out@;
    let u2 = to_pixels(2, size);
    let u8 = to_pixels(8, size);
    let u10 = to_pixels(10, size);
    let u16 = to_pixels(16, size);
    let u30 = to_pixels(30, size);
    let ghost all = caret(x as int, y as int, size as int);
    let mut step: i32 = 0;
    while step < u8
        invariant
            0 <= step,
            step <= u8 || (u8 <= 0 && step == 0),
            -0x400_0000 <= x <= 0x400_0000,
            -0x400_0000 <= y <= 0x400_0000,
            -0x400_0000 <= u8 <= 0x400_0000,
            -0x400_0000 <= u10 <= 0x400_0000,
            -0x400_0000 <= u16 <= 0x400_0000,
            -0x400_0000 <= u30 <= 0x400_0000,
            u2 == unit(2, size as int),
            u8 == unit(8, size as int),
            u10 == unit(10, size as int),
            u16 == unit(16, size as int),
            u30 == unit(30, size as int),
            all == caret(x as int, y as int, size as int),
            out@ == start + all.take(2 * step),
        decreases u8 - step,
    {
        out.push(Stroke::Fill(Rect::new(x + u10 + step, y + u16 + step, u2, u2)));
        out.push(Stroke::Fill(Rect::new(x + u10 + step, y + u30 - step, u2, u2)));
        assert((2 * step) / 2 == step && (2 * step) % 2 == 0);
        assert((2 * step + 1) / 2 == step && (2 * step + 1) % 2 == 1);
        assert(all.take(2 * step + 2) =~= all.take(2 * step).push(all[2 * step]).push(all[2 * step + 1]));
        assert(out@ =~= start + all.take(2 * step + 2));
        step = step + 1;
    }
    assert(all.take(2 * step) =~= all);
}

/// Append one row of the diamond; see [`diamond_row`].
fn push_diamond_row(out: &mut Vec<Stroke>, cx: i32, cy: i32, r: i32, row: i32)
    requires
        -0x400_0000 <= cx <= 0x400_0000,
        -0x400_0000 <= cy <= 0x400_0000,
        0 <= row <= 2 * r,
        r <= 0x400_0000,
    ensures
        final(out)@ == old(out)@ + diamond_row(cx as int, cy as int, r as int, row as int),
{
    let ghost start = out@;
    let ghost all = diamond_row(cx as int, cy as int, r as int, row as int);
    let dy = row - r;
    let span = r - if dy < 0 {
        -dy
    } else {
        dy
    };
    let mut k: i32 = 0;
    while k < 2 * span + 1
        invariant
            0 <= k <= 2 * span + 1,
            0 <= span <= r,
            r <= 0x400_0000,
            dy == row - r,
            -r <= dy <= r,
            span == r - (if dy < 0 {
                -dy
            } else {
                dy as int
            }),
            -0x400_0000 <= cx <= 0x400_0000,
            -0x400_0000 <= cy <= 0x400_0000,
            all == diamond_row(cx as int, cy as int, r as int, row as int),
            all.len() == 2 * span + 1,
            out@ == start + all.take(k as int),
        decreases 2 * span + 1 - k,
    {
        out.push(Stroke::Dot(cx - span + k, cy + dy));
        assert(all.take(k + 1) =~= all.take(k as int).push(all[k as int]));
        assert(out@ =~= start + all.take(k + 1));
        k = k + 1;
    }
    assert(all.take(k as int) =~= all);
}

/// Append the diamond; see [`diamond`].
fn push_diamond(out: &mut Vec<Stroke>, cx: i32, cy: i32, r: i32)
    requires
        -0x400_0000 <= cx <= 0x400_0000,
        -0x400_0000 <= cy <= 0x400_0000,
        -0x400_0000 <= r <= 0x400_0000,
    ensures
        final(out)@ == old(out)@ + diamond(cx as int, cy as int, r as int),
{
    let ghost start = out@;
    let mut row: i32 = 0;
    assert(diamond_rows(cx as int, cy as int, r as int, 0) =~= Seq::<Stroke>::empty());
    assert(out@ =~= start + diamond_rows(cx as int, cy as int, r as int, 0));
    while row < 2 * r + 1
        invariant
            0 <= row,
            row <= 2 * r + 1 || (r < 0 && row == 0),
            -0x400_0000 <= cx <= 0x400_0000,
            -0x400_0000 <= cy <= 0x400_0000,
            -0x400_0000 <= r <= 0x400_0000,
            out@ == start + diamond_rows(cx as int, cy as int, r as int, row as int),
        decreases 2 * r + 1 - row,
    {
        push_diamond_row(out, cx, cy, r, row);
        assert(out@ =~= start + diamond_rows(cx as int, cy as int, r as int, row + 1));
        row = row + 1;
    }
}

/// The strokes of the emblem for `kind` at `size` pixels square, in drawing order.
pub fn emblem(kind: Kind, size: i32) -> (r: Vec<Stroke>)
    requires
        size_ok(size as int),
    ensures
        r@ == strokes(kind, size as int),
{
    let u = |v: i32| -> (p: i32)
        requires
            0 <= v <= 56,
        ensures
            p == unit(v as int, size as int),
            -0x400_0000 <= p <= 0x400_0000,
        { to_pixels(v, size) };
    let mut out: Vec<Stroke> = Vec::new();
    match kind {
        Kind::Directory => {
            out.push(Stroke::Fill(Rect::new(u(4), u(14), u(22), u(6))));
            out.push(Stroke::Fill(Rect::new(u(4), u(18), u(56), u(34))));
            out.push(Stroke::Erase(Rect::new(u(7), u(23), u(50), u(26))));
            out.push(Stroke::Outline(Rect::new(u(4), u(18), u(56), u(34))));
            assert(out@ =~= strokes(kind, size as int));
        },
        Kind::Plain => {
            let (x, y, w, h) = (u(12), u(6), u(40), u(52));
            out.push(Stroke::Outline(Rect::new(x, y, w, h)));
            push_fold(&mut out, x, y, w, u(12));
            out.push(Stroke::Fill(Rect::new(x + w - u(12), y, u(12), 1)));
            push_rules(&mut out, x, y, w, size);
            assert(out@ =~= strokes(kind, size as int));
        },
        Kind::Executable => {
            let (x, y, w, h) = (u(6), u(12), u(52), u(40));
            out.push(Stroke::Outline(Rect::new(x, y, w, h)));
            out.push(Stroke::Fill(Rect::new(x, y, w, u(6))));
            push_caret(&mut out, x, y, size);
            out.push(Stroke::Fill(Rect::new(x + u(28), y + u(30), u(14), u(2))));
            assert(out@ =~= strokes(kind, size as int));
        },
        Kind::Launcher => {
            let (x, y, w, h) = (u(12), u(6), u(40), u(52));
            out.push(Stroke::Outline(Rect::new(x, y, w, h)));
            push_diamond(&mut out, x + halved(w), y + halved(h), u(12));
            assert(out@ =~= strokes(kind, size as int));
        },
    }
    out
}

/// Whether a stroke stays on the `size`-pixel square: a rectangle of no negative extent lying
/// wholly on it, or a pixel on it.
pub open spec fn on_square(stroke: Stroke, size: int) -> bool {
    match stroke {
        Stroke::Fill(r) => rect_on_square(r, size),
        Stroke::Erase(r) => rect_on_square(r, size),
        Stroke::Outline(r) => rect_on_square(r, size),
        Stroke::Dot(x, y) => 0 <= x < size && 0 <= y < size,
    }
}

/// A rectangle of no negative extent lying wholly on the `size`-pixel square.
pub open spec fn rect_on_square(r: Rect, size: int) -> bool {
    0 <= r.x && 0 <= r.y && 0 <= r.w && 0 <= r.h && r.x + r.w <= size && r.y + r.h <= size
}

/// Every pixel of the first `rows` rows of a diamond lies within its radius of the centre.
proof fn lemma_diamond_rows(cx: int, cy: int, r: int, rows: int)
    requires
        0 <= rows <= 2 * r + 1,
        -0x400_0000 <= cx <= 0x400_0000,
        -0x400_0000 <= cy <= 0x400_0000,
        r <= 0x400_0000,
    ensures
        forall|j: int|
            0 <= j < diamond_rows(cx, cy, r, rows).len() ==> (#[trigger] diamond_rows(
                cx,
                cy,
                r,
                rows,
            )[j] matches Stroke::Dot(x, y) && cx - r <= x <= cx + r && cy - r <= y <= cy + r),
    decreases rows,
{
    if rows > 0 {
        lemma_diamond_rows(cx, cy, r, rows - 1);
        let prev = diamond_rows(cx, cy, r, rows - 1);
        let row = diamond_row(cx, cy, r, rows - 1);
        let all = diamond_rows(cx, cy, r, rows);
        assert forall|j: int| 0 <= j < all.len() implies (#[trigger] all[j] matches Stroke::Dot(x, y)
            && cx - r <= x <= cx + r && cy - r <= y <= cy + r) by {
            if j < prev.len() {
                assert(all[j] == prev[j]);
            } else {
                assert(all[j] == row[j - prev.len()]);
            }
        }
    }
}

/// Every stroke of an emblem stays on its square: nothing is drawn off the icon, and no
/// rectangle has a negative extent.
pub proof fn law_emblem_stays_on_its_square(kind: Kind, size: int)
    requires
        1 <= size,
        size_ok(size),
    ensures
        forall|i: int|
            0 <= i < strokes(kind, size).len() ==> on_square(#[trigger] strokes(kind, size)[i], size),
{
    let all = strokes(kind, size);
    let u = |v: int| unit(v, size);
    match kind {
        Kind::Directory => {},
        Kind::Plain => {
            let (x, y, w, h) = (u(12), u(6), u(40), u(52));
            let head = seq![Stroke::Outline(rect(x, y, w, h))];
            let f = fold(x, y, w, u(12));
            let corner = seq![Stroke::Fill(rect(x + w - u(12), y, u(12), 1))];
            let lines = rules(x, y, w, size);
            assert forall|i: int| 0 <= i < all.len() implies on_square(#[trigger] all[i], size) by {
                if i == 0 {
                    assert(all[i] == head[0]);
                } else if i < 1 + f.len() {
                    assert(all[i] == f[i - 1]);
                } else if i == 1 + f.len() {
                    assert(all[i] == corner[0]);
                } else {
                    let line = i - 2 - f.len();
                    assert(all[i] == lines[line]);
                    assert(0 <= line < 4);
                    assert(line * u(7) <= 3 * u(7)) by (nonlinear_arith)
                        requires
                            0 <= line < 4,
                            u(7) >= 0,
                    ;
                    assert(line * u(7) >= 0) by (nonlinear_arith)
                        requires
                            0 <= line,
                            u(7) >= 0,
                    ;
                }
            }
        },
        Kind::Executable => {
            let (x, y, w, h) = (u(6), u(12), u(52), u(40));
            let head = seq![Stroke::Outline(rect(x, y, w, h)), Stroke::Fill(rect(x, y, w, u(6)))];
            let c = caret(x, y, size);
            let tail = seq![Stroke::Fill(rect(x + u(28), y + u(30), u(14), u(2)))];
            assert forall|i: int| 0 <= i < all.len() implies on_square(#[trigger] all[i], size) by {
                if i < 2 {
                    assert(all[i] == head[i]);
                } else if i < 2 + c.len() {
                    assert(all[i] == c[i - 2]);
                    let k = i - 2;
                    assert(0 <= k / 2 < u(8));
                } else {
                    assert(all[i] == tail[0]);
                }
            }
        },
        Kind::Launcher => {
            let (x, y, w, h) = (u(12), u(6), u(40), u(52));
            let head = seq![Stroke::Outline(rect(x, y, w, h))];
            let cx = x + half(w);
            let cy = y + half(h);
            let r = u(12);
            let d = diamond(cx, cy, r);
            lemma_diamond_rows(cx, cy, r, count(2 * r + 1) as int);
            assert forall|i: int| 0 <= i < all.len() implies on_square(#[trigger] all[i], size) by {
                if i == 0 {
                    assert(all[i] == head[0]);
                } else {
                    assert(all[i] == d[i - 1]);
                }
            }
        },
    }
}

} // verus!
