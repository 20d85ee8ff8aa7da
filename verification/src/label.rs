//! Breaking a file name into the lines of its label.
//!
//! Broken by character, not by word: file names are not prose, and
//! `annual-report-final.txt` has no useful word boundaries. A name too long for the lines
//! available is cut and given an ellipsis, since a label that overflowed its cell would
//! collide with its neighbour.
//!
//! How wide a run of text comes out is the font's business; the program hands in a measure
//! that answers it, and that answers the same for the same text.

use vstd::prelude::*;

use crate::canvas::Rect;
use crate::emblem::half;
use crate::layout::COORD_LIMIT;
use crate::strings::{chars_of, string_of};

verus! {

/// The most lines a label ever takes.
pub const LABEL_LINES: usize = 2;

/// Blank space on each side of a label's text, inside its cell.
pub const LABEL_PAD: i32 = 2;

/// How many lines of text at `line_height` a label `area_height` tall has room for: what
/// actually fits, at least one, and never more than [`LABEL_LINES`] (two). A wrap that is not told
/// produces a line that is silently dropped below, and the label reads as cut with nothing
/// saying so.
pub fn label_lines(area_height: i32, line_height: i32) -> (r: usize)
    ensures
        r == if line_height > 0 && area_height >= LABEL_LINES * line_height {
            LABEL_LINES as int
        } else {
            1
        },
{
    if line_height > 0 && area_height as i64 >= LABEL_LINES as i64 * line_height as i64 {
        LABEL_LINES
    } else {
        1
    }
}

/// What `measure` answers for the text `s`.
pub open spec fn measured<F: Fn(&str) -> i32>(measure: F, s: Seq<char>) -> int {
    let (x, w) = choose|x: &str, w: i32| x@ == s && #[trigger] measure.ensures((x,), w);
    w as int
}

/// `measure` answers the same for the same text, as a font measuring a run does.
pub open spec fn consistent<F: Fn(&str) -> i32>(measure: F) -> bool {
    forall|x: &str, y: &str, a: i32, b: i32|
        x@ == y@ && #[trigger] measure.ensures((x,), a) && #[trigger] measure.ensures((y,), b)
            ==> a == b
}

/// Breaking `name` into lines, after its first `n` characters: the lines filled so far, the
/// line being filled, and whether every line allowed is taken.
///
/// A character that would push the line being filled past `width` starts a new line, unless
/// that line is still empty: a character wider than the whole label still has to go
/// somewhere.
pub open spec fn breaking<F: Fn(&str) -> i32>(
    measure: F,
    name: Seq<char>,
    width: int,
    max_lines: int,
    n: int,
) -> (Seq<Seq<char>>, Seq<char>, bool)
    decreases n,
{
    if n <= 0 {
        (seq![], seq![], false)
    } else {
        let (lines, line, full) = breaking(measure, name, width, max_lines, n - 1);
        let ch = name[n - 1];
        if full {
            (lines, line, full)
        } else if measured(measure, line.push(ch)) > width && line.len() > 0 {
            let lines = lines.push(line);
            if lines.len() == max_lines {
                (lines, seq![], true)
            } else {
                (lines, seq![ch], false)
            }
        } else {
            (lines, line.push(ch), false)
        }
    }
}

/// `line` cut back from its end until it fits `width` with an ellipsis after it, or nothing
/// is left of it.
pub open spec fn cut_for_ellipsis<F: Fn(&str) -> i32>(measure: F, line: Seq<char>, width: int) -> Seq<
    char,
>
    decreases line.len(),
{
    if line.len() > 0 && measured(measure, line.push('…')) > width {
        cut_for_ellipsis(measure, line.drop_last(), width)
    } else {
        line
    }
}

/// The lines of a label for `name`, at most `max_lines` of them, each meant to fit `width`.
///
/// A name that fits is one line as it stands. Otherwise it is broken by character; when the
/// lines run out with text still to place, the last line is cut back and ends in `…`.
pub open spec fn wrapped<F: Fn(&str) -> i32>(
    measure: F,
    name: Seq<char>,
    width: int,
    max_lines: int,
) -> Seq<Seq<char>> {
    if width <= 0 || max_lines <= 0 {
        seq![]
    } else if measured(measure, name) <= width {
        seq![name]
    } else {
        let (lines, line, full) = breaking(measure, name, width, max_lines, name.len() as int);
        if lines.len() < max_lines && line.len() > 0 {
            lines.push(line)
        } else if lines.len() > 0 {
            lines.update(
                lines.len() - 1,
                cut_for_ellipsis(measure, lines.last(), width).push('…'),
            )
        } else {
            lines
        }
    }
}

/// A line that fits `width`, or a single character too wide to break.
pub open spec fn fits_or_single<F: Fn(&str) -> i32>(measure: F, line: Seq<char>, width: int) -> bool {
    measured(measure, line) <= width || line.len() == 1
}

/// What breaking keeps true after each character: never more lines than allowed, every line
/// filled fits or is a single character, and the lines and the line being filled read back a
/// beginning of the name -- all of what was read, until the lines ran out.
proof fn lemma_breaking<F: Fn(&str) -> i32>(
    measure: F,
    name: Seq<char>,
    width: int,
    max_lines: int,
    n: int,
)
    requires
        max_lines >= 1,
        0 <= n <= name.len(),
    ensures
        ({
            let (lines, line, full) = breaking(measure, name, width, max_lines, n);
            let done = lines.flatten_alt() + line;
            &&& lines.len() <= max_lines
            &&& full ==> lines.len() == max_lines && line.len() == 0
            &&& !full ==> lines.len() < max_lines && done.len() == n
            &&& forall|i: int|
                0 <= i < lines.len() ==> (#[trigger] lines[i]).len() > 0 && fits_or_single(
                    measure,
                    lines[i],
                    width,
                )
            &&& line.len() > 0 ==> fits_or_single(measure, line, width)
            &&& !full && line.len() == 0 ==> n == 0
            &&& done.len() <= n
            &&& done == name.take(done.len() as int)
        }),
    decreases n,
{
    if n > 0 {
        lemma_breaking(measure, name, width, max_lines, n - 1);
        let (lines, line, full) = breaking(measure, name, width, max_lines, n - 1);
        let ch = name[n - 1];
        let done = lines.flatten_alt() + line;
        if !full {
            assert(name.take(n) =~= name.take(n - 1).push(ch));
            if measured(measure, line.push(ch)) > width && line.len() > 0 {
                let more = lines.push(line);
                assert(more.drop_last() =~= lines);
                assert(more.flatten_alt() == done);
                if more.len() == max_lines {
                    assert(more.flatten_alt() + seq![] =~= done);
                } else {
                    assert(more.flatten_alt() + seq![ch] =~= name.take(n));
                }
            } else {
                assert(lines.flatten_alt() + line.push(ch) =~= done.push(ch));
            }
        }
    }
}

/// Cutting a line back for the ellipsis leaves a beginning of it that fits with the ellipsis,
/// or nothing.
proof fn lemma_cut_for_ellipsis<F: Fn(&str) -> i32>(measure: F, line: Seq<char>, width: int)
    ensures
        cut_for_ellipsis(measure, line, width).len() <= line.len(),
        cut_for_ellipsis(measure, line, width) == line.take(
            cut_for_ellipsis(measure, line, width).len() as int,
        ),
        cut_for_ellipsis(measure, line, width).len() > 0 ==> measured(
            measure,
            cut_for_ellipsis(measure, line, width).push('…'),
        ) <= width,
    decreases line.len(),
{
    if line.len() > 0 && measured(measure, line.push('…')) > width {
        let shorter = line.drop_last();
        lemma_cut_for_ellipsis(measure, shorter, width);
        let c = cut_for_ellipsis(measure, shorter, width);
        assert(shorter.take(c.len() as int) =~= line.take(c.len() as int));
    } else {
        assert(line.take(line.len() as int) =~= line);
    }
}

/// The lines of a label are never more than asked for; each fits the width or is a single
/// character too wide to break; and read in order they give back the name -- all of it, or,
/// when it did not all fit, a beginning of it followed by an ellipsis.
pub proof fn law_wrapped_lines<F: Fn(&str) -> i32>(
    measure: F,
    name: Seq<char>,
    width: int,
    max_lines: int,
)
    requires
        width > 0,
        max_lines > 0,
    ensures
        wrapped(measure, name, width, max_lines).len() <= max_lines,
        forall|i: int|
            0 <= i < wrapped(measure, name, width, max_lines).len() ==> fits_or_single(
                measure,
                #[trigger] wrapped(measure, name, width, max_lines)[i],
                width,
            ),
        ({
            let r = wrapped(measure, name, width, max_lines);
            ||| r.flatten() == name
            ||| r.len() > 0 && r.flatten().last() == '…' && r.flatten().drop_last().is_prefix_of(
                name,
            )
        }),
{
    let r = wrapped(measure, name, width, max_lines);
    r.lemma_flatten_and_flatten_alt_are_equivalent();
    if measured(measure, name) <= width {
        assert(r == seq![name]);
        assert(r.drop_last() =~= Seq::<Seq<char>>::empty());
        assert(r.drop_last().flatten_alt() =~= Seq::<char>::empty());
        assert(r.flatten_alt() =~= name);
    } else {
        lemma_breaking(measure, name, width, max_lines, name.len() as int);
        let (lines, line, full) = breaking(measure, name, width, max_lines, name.len() as int);
        let done = lines.flatten_alt() + line;
        assert(name.take(name.len() as int) =~= name);
        if lines.len() < max_lines && line.len() > 0 {
            assert(r.drop_last() =~= lines);
        } else if lines.len() > 0 {
            let last = lines.last();
            lemma_cut_for_ellipsis(measure, last, width);
            let cut = cut_for_ellipsis(measure, last, width);
            let front = lines.drop_last();
            assert(r.drop_last() =~= front);
            assert(lines.flatten_alt() == front.flatten_alt() + last);
            assert(r.flatten_alt() == front.flatten_alt() + cut.push('…'));
            assert(r.flatten_alt().drop_last() =~= front.flatten_alt() + cut);
            assert forall|i: int| 0 <= i < (front.flatten_alt() + cut).len() implies (
                front.flatten_alt() + cut)[i] == name[i] by {
                if i >= front.flatten_alt().len() {
                    assert(cut[i - front.flatten_alt().len()] == last[i - front.flatten_alt().len()]);
                }
                assert(done[i] == name.take(done.len() as int)[i]);
            }
            assert forall|i: int| 0 <= i < r.len() implies fits_or_single(measure, #[trigger] r[i], width) by {
                if i < lines.len() - 1 {
                    assert(r[i] == lines[i]);
                } else {
                    assert(r[i] == cut.push('…'));
                }
            }
        } else {
            assert(r =~= Seq::<Seq<char>>::empty());
            assert(name.len() == 0);
            assert(r.flatten_alt() =~= name);
        }
    }
}

/// A call of a consistent measure answers what [`measured`] says of its text.
proof fn lemma_measured<F: Fn(&str) -> i32>(measure: F, x: &str, w: i32)
    requires
        consistent(measure),
        measure.ensures((x,), w),
    ensures
        measured(measure, x@) == w,
{
    assert(exists|y: &str, v: i32| y@ == x@ && #[trigger] measure.ensures((y,), v)) by {
        assert(x@ == x@ && measure.ensures((x,), w));
    }
}

/// Measure `text` with `measure`.
fn measure_chars<F: Fn(&str) -> i32>(measure: &F, text: &[char]) -> (r: i32)
    requires
        forall|s: &str| measure.requires((s,)),
        consistent(*measure),
    ensures
        r == measured(*measure, text@),
{
    let s = string_of(text);
    let t = s.as_str();
    let r = measure(t);
    proof {
        lemma_measured(*measure, t, r);
    }
    r
}

/// Break a file name into at most `max_lines` lines that fit `width`, by character, with an
/// ellipsis on the last when it does not all fit.
pub fn wrap<F: Fn(&str) -> i32>(measure: &F, name: &str, width: i32, max_lines: usize) -> (r: Vec<
    String,
>)
    requires
        forall|s: &str| measure.requires((s,)),
        consistent(*measure),
    ensures
        r.deep_view() == wrapped(*measure, name@, width as int, max_lines as int),
{
    if width <= 0 || max_lines == 0 {
        let r: Vec<String> = Vec::new();
        assert(r.deep_view() =~= Seq::<Seq<char>>::empty());
        return r;
    }
    let chars = chars_of(name);
    if measure_chars(measure, chars.as_slice()) <= width {
        let mut r: Vec<String> = Vec::new();
        r.push(string_of(chars.as_slice()));
        assert(r.deep_view() =~= seq![name@]);
        return r;
    }
    let ghost w = width as int;
    let ghost k = max_lines as int;
    let mut lines: Vec<String> = Vec::new();
    let mut line: Vec<char> = Vec::new();
    let mut full = false;
    assert(lines.deep_view() =~= Seq::<Seq<char>>::empty());
    for i in 0..chars.len()
        invariant
            chars@ == name@,
            forall|s: &str| measure.requires((s,)),
            consistent(*measure),
            w == width,
            k == max_lines,
            (lines.deep_view(), line@, full) == breaking(*measure, name@, w, k, i as int),
            lines.len() <= max_lines,
            full || lines.len() < max_lines,
    {
        let ch = chars[i];
        if !full {
            let mut candidate = line.clone();
            candidate.push(ch);
            if measure_chars(measure, candidate.as_slice()) > width && line.len() > 0 {
                let ghost before = lines.deep_view();
                lines.push(string_of(line.as_slice()));
                assert(lines.deep_view() =~= before.push(line@));
                if lines.len() == max_lines {
                    full = true;
                    line = Vec::new();
                } else {
                    line = Vec::new();
                    line.push(ch);
                }
            } else {
                line = candidate;
            }
        }
        proof {
            assert(line@ =~= breaking(*measure, name@, w, k, i + 1).1);
        }
    }
    if lines.len() < max_lines && line.len() > 0 {
        let ghost before = lines.deep_view();
        lines.push(string_of(line.as_slice()));
        assert(lines.deep_view() =~= before.push(line@));
        return lines;
    }
    if lines.len() > 0 {
        let last_index = lines.len() - 1;
        let mut last = chars_of(lines[last_index].as_str());
        let ghost whole = last@;
        let mut fits = false;
        while !fits && last.len() > 0
            invariant
                forall|s: &str| measure.requires((s,)),
                consistent(*measure),
                cut_for_ellipsis(*measure, last@, w) == cut_for_ellipsis(*measure, whole, w),
                fits ==> cut_for_ellipsis(*measure, last@, w) == last@,
                w == width,
            decreases last.len() + if fits { 0int } else { 1int },
        {
            let mut with_ellipsis = last.clone();
            with_ellipsis.push('…');
            if measure_chars(measure, with_ellipsis.as_slice()) > width {
                let ghost before = last@;
                last.pop();
                assert(last@ =~= before.drop_last());
            } else {
                fits = true;
            }
        }
        last.push('…');
        let ghost before = lines.deep_view();
        lines.set(last_index, string_of(last.as_slice()));
        assert(lines.deep_view() =~= before.update(
            last_index as int,
            cut_for_ellipsis(*measure, whole, w).push('…'),
        ));
    }
    lines
}

/// Where one line of a label is drawn: its left edge and its baseline.
#[derive(Debug, Clone, Copy, PartialEq, Eq, Structural)]
pub struct LinePlace {
    pub x: i32,
    pub baseline: i32,
}

/// Where a label's lines go, and the rectangle a selected label inverts onto.
#[derive(Debug, Clone, PartialEq, Eq)]
pub struct LabelLayout {
    /// Behind the lines, as wide as the widest with a little padding each side, as tall as
    /// the lines but never taller than the label's area.
    pub highlight: Rect,
    /// One place for each line that fits, in order; the lines after the first that would
    /// spill below the area are not drawn.
    pub lines: Vec<LinePlace>,
}

/// The widest of `widths`, or 0 for none.
pub open spec fn widest(widths: Seq<i32>) -> int
    decreases widths.len(),
{
    if widths.len() == 0 {
        0
    } else {
        let rest = widest(widths.drop_last());
        if widths.last() > rest {
            widths.last() as int
        } else {
            rest
        }
    }
}

/// How many of `n` lines, `line_height` apart from the top of a `height`-tall area, fit before
/// the first that would spill past its bottom, counting from line `i`.
pub open spec fn lines_fitting(line_height: int, height: int, i: int, n: int) -> int
    decreases n - i,
{
    if i >= n || line_height * (i + 1) > height {
        i
    } else {
        lines_fitting(line_height, height, i + 1, n)
    }
}

/// The layout of a label of lines `widths` wide in `area`, with `line_height` between
/// baselines and `ascent` from a line's top to its baseline: each line centred, one under the
/// other from the top; `None` for an area with no room at all.
pub open spec fn spec_label_layout(area: Rect, line_height: int, ascent: int, widths: Seq<i32>) -> Option<
    (Rect, Seq<LinePlace>),
> {
    if area.w <= 0 || area.h <= 0 {
        None
    } else {
        let wide = widest(widths);
        let tall = line_height * widths.len();
        let highlight = Rect {
            x: (area.x + half(area.w - wide) - LABEL_PAD) as i32,
            y: area.y,
            w: (wide + 2 * LABEL_PAD) as i32,
            h: (if tall < area.h {
                tall
            } else {
                area.h as int
            }) as i32,
        };
        let shown = lines_fitting(line_height, area.h as int, 0, widths.len() as int);
        let lines = Seq::new(
            shown as nat,
            |i: int|
                LinePlace {
                    x: (area.x + half(area.w - widths[i])) as i32,
                    baseline: (area.y + line_height * i + ascent) as i32,
                },
        );
        Some((highlight, lines))
    }
}

/// The view of a label layout.
pub open spec fn layout_view(l: Option<LabelLayout>) -> Option<(Rect, Seq<LinePlace>)> {
    match l {
        Some(l) => Some((l.highlight, l.lines@)),
        None => None,
    }
}

/// Lay out a label's lines, `widths` being how wide each measured: see
/// [`spec_label_layout`]. The sizes are held to [`COORD_LIMIT`] and there are at most 65536
/// lines, which keeps every sum and product well inside an `i32`.
pub fn label_layout(area: Rect, line_height: i32, ascent: i32, widths: &[i32]) -> (r: Option<
    LabelLayout,
>)
    requires
        -COORD_LIMIT <= area.x <= COORD_LIMIT,
        -COORD_LIMIT <= area.y <= COORD_LIMIT,
        area.w <= COORD_LIMIT,
        area.h <= COORD_LIMIT,
        0 <= line_height <= COORD_LIMIT / 0x10000,
        -COORD_LIMIT <= ascent <= COORD_LIMIT,
        widths.len() <= 0x10000,
        forall|i: int| 0 <= i < widths.len() ==> 0 <= #[trigger] widths[i] <= COORD_LIMIT,
    ensures
        layout_view(r) == spec_label_layout(area, line_height as int, ascent as int, widths@),
{
    if area.w <= 0 || area.h <= 0 {
        return None;
    }
    let n = widths.len();
    let mut wide: i32 = 0;
    let mut i: usize = 0;
    assert(widths@.take(0) =~= Seq::<i32>::empty());
    while i < n
        invariant
            n == widths.len(),
            i <= n,
            wide == widest(widths@.take(i as int)),
            0 <= wide <= COORD_LIMIT,
            forall|k: int| 0 <= k < widths.len() ==> 0 <= #[trigger] widths[k] <= COORD_LIMIT,
        decreases n - i,
    {
        assert(widths@.take(i + 1).drop_last() =~= widths@.take(i as int));
        if widths[i] > wide {
            wide = widths[i];
        }
        i = i + 1;
    }
    assert(widths@.take(n as int) =~= widths@);
    let lh = line_height as i64;
    assert(0 <= lh * (n as i64) <= 0x1000_0000) by (nonlinear_arith)
        requires
            0 <= lh <= 0x1000,
            n <= 0x10000,
    ;
    let tall = lh * n as i64;
    let h = if tall < area.h as i64 {
        tall as i32
    } else {
        area.h
    };
    let dw = area.w - wide;
    let hx = if dw >= 0 {
        dw / 2
    } else {
        -((-dw) / 2)
    };
    let highlight = Rect::new(area.x + hx - LABEL_PAD, area.y, wide + 2 * LABEL_PAD, h);
    let ghost shown = lines_fitting(line_height as int, area.h as int, 0, n as int);
    let mut lines: Vec<LinePlace> = Vec::new();
    let mut k: usize = 0;
    let mut stopped = false;
    while k < n && !stopped
        invariant
            n == widths.len(),
            k <= n,
            0 < area.w <= COORD_LIMIT,
            0 < area.h <= COORD_LIMIT,
            -COORD_LIMIT <= area.x <= COORD_LIMIT,
            -COORD_LIMIT <= area.y <= COORD_LIMIT,
            0 <= line_height <= 0x1000,
            -COORD_LIMIT <= ascent <= COORD_LIMIT,
            n <= 0x10000,
            forall|j: int| 0 <= j < widths.len() ==> 0 <= #[trigger] widths[j] <= COORD_LIMIT,
            shown == lines_fitting(line_height as int, area.h as int, 0, n as int),
            stopped ==> shown == k,
            !stopped ==> shown == lines_fitting(line_height as int, area.h as int, k as int, n as int),
            lines@ == Seq::new(
                k as nat,
                |j: int|
                    LinePlace {
                        x: (area.x + half(area.w - widths[j])) as i32,
                        baseline: (area.y + line_height * j + ascent) as i32,
                    },
            ),
        decreases n - k + if stopped {
            0int
        } else {
            1int
        },
    {
        assert(0 <= (line_height as int) * (k as int) <= 0x1000_0000) by (nonlinear_arith)
            requires
                0 <= line_height <= 0x1000,
                k < 0x10000,
        ;
        let top = area.y as i64 + line_height as i64 * k as i64;
        if top + line_height as i64 > area.y as i64 + area.h as i64 {
            assert((line_height as int) * (k + 1) == (line_height as int) * (k as int) + line_height) by (nonlinear_arith);
            stopped = true;
        } else {
            assert((line_height as int) * (k + 1) == (line_height as int) * (k as int) + line_height) by (nonlinear_arith);
            let d = area.w - widths[k];
            let x = area.x + if d >= 0 {
                d / 2
            } else {
                -((-d) / 2)
            };
            lines.push(LinePlace { x, baseline: (top + ascent as i64) as i32 });
            assert(lines@ =~= Seq::new(
                (k + 1) as nat,
                |j: int|
                    LinePlace {
                        x: (area.x + half(area.w - widths[j])) as i32,
                        baseline: (area.y + line_height * j + ascent) as i32,
                    },
            ));
            k = k + 1;
        }
    }
    proof {
        if !stopped {
            assert(shown == k);
        }
    }
    Some(LabelLayout { highlight, lines })
}

} // verus!
