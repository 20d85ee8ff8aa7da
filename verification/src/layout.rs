//! Where the icons go.
//!
//! IRIX filled the desktop from the **top right**, downward, starting a new column to the
//! **left** when one ran out of room. An icon is either **placed** at a free position the user
//! dropped it at, or **slotted** in a grid cell, and both are remembered per file name (see
//! [`crate::state`]) so a file leaving the desktop leaves a *gap* rather than pulling its
//! neighbors up.

use vstd::prelude::*;

use crate::entries::Entry;
use vstd::arithmetic::div_mod::{lemma_fundamental_div_mod, lemma_fundamental_div_mod_converse, lemma_mod_bound};

verus! {

/// How far from the origin a coordinate or a size may be: 2^28 pixels.
///
/// The layout, the pointer and the menu form sums of a handful of coordinates and sizes, and
/// cell indices times cell sizes, in `i32`. Rather than state the exact no-overflow condition
/// of each of those expressions, every coordinate and size is held to this one limit, which
/// leaves room for all of them at once. Screens are a few thousand pixels across, five orders
/// of magnitude inside it; a grid or point beyond it is refused (`Grid::is_valid` says so)
/// instead of computed.
pub const COORD_LIMIT: i32 = 0x1000_0000;

/// A point in the surface's own pixels, top-left origin.
#[derive(Debug, Clone, Copy, PartialEq, Eq, Structural)]
pub struct Point {
    pub x: i32,
    pub y: i32,
}

impl Point {
    pub fn new(x: i32, y: i32) -> (p: Self)
        ensures
            p.x == x,
            p.y == y,
    {
        Self { x, y }
    }
}

/// A rectangle in the surface's own pixels.
#[derive(Debug, Clone, Copy, PartialEq, Eq, Structural)]
pub struct Rect {
    pub x: i32,
    pub y: i32,
    pub w: i32,
    pub h: i32,
}

impl Rect {
    pub fn new(x: i32, y: i32, w: i32, h: i32) -> (r: Self)
        ensures
            r.x == x,
            r.y == y,
            r.w == w,
            r.h == h,
    {
        Self { x, y, w, h }
    }

    /// Whether `point` is inside, with the right and bottom edges exclusive.
    pub open spec fn spec_contains(self, point: Point) -> bool {
        &&& point.x >= self.x
        &&& point.y >= self.y
        &&& point.x < self.x + self.w
        &&& point.y < self.y + self.h
    }

    /// Whether `point` is inside, with the right and bottom edges exclusive.
    pub fn contains(&self, point: Point) -> (r: bool)
        ensures
            r == self.spec_contains(point),
    {
        let px = point.x as i64;
        let py = point.y as i64;
        px >= self.x as i64 && py >= self.y as i64 && px < self.x as i64 + self.w as i64 && py
            < self.y as i64 + self.h as i64
    }

    /// Whether the two rectangles share any area.
    pub open spec fn spec_intersects(self, other: Rect) -> bool {
        &&& self.x < other.x + other.w
        &&& other.x < self.x + self.w
        &&& self.y < other.y + other.h
        &&& other.y < self.y + self.h
    }

    /// Whether the two rectangles share any area. A rectangle with no width or no height
    /// shares none with anything.
    pub fn intersects(&self, other: Rect) -> (r: bool)
        ensures
            r == self.spec_intersects(other),
    {
        (self.x as i64) < other.x as i64 + other.w as i64 && (other.x as i64) < self.x as i64
            + self.w as i64 && (self.y as i64) < other.y as i64 + other.h as i64 && (other.y as i64)
            < self.y as i64 + self.h as i64
    }
}

/// How big a cell is and how much room is left around the edges.
///
/// A cell holds the icon square with the label underneath, so it is taller than it is wide.
#[derive(Debug, Clone, Copy, PartialEq, Eq, Structural)]
pub struct Metrics {
    /// The icon artwork, square.
    pub icon: i32,
    /// The whole cell, icon plus label.
    pub cell_w: i32,
    pub cell_h: i32,
    /// Between cells.
    pub gap: i32,
    /// Between the outermost cells and the screen edge.
    pub margin: i32,
}

/// The metrics a desktop gets when nothing says otherwise.
pub open spec fn default_metrics() -> Metrics {
    // 64 of icon, 4 of gap, then two 16px lines of label with a little slack.
    Metrics { icon: 64, cell_w: 96, cell_h: 104, gap: 8, margin: 12 }
}

impl Default for Metrics {
    fn default() -> (m: Self)
        ensures
            m == default_metrics(),
    {
        Metrics { icon: 64, cell_w: 96, cell_h: 104, gap: 8, margin: 12 }
    }
}

/// The grid over one surface.
#[derive(Debug, Clone, Copy, PartialEq, Eq, Structural)]
pub struct Grid {
    pub area: Rect,
    pub metrics: Metrics,
}

/// Whether `v` lies within `[lo, COORD_LIMIT]`.
pub open spec fn bounded(v: i32, lo: int) -> bool {
    lo <= v <= COORD_LIMIT
}

/// `a / b` rounded to the nearest integer, halves away from zero, for `b > 0`.
pub open spec fn spec_div_round(value: int, by: int) -> int {
    if value >= 0 {
        (value + by / 2) / by
    } else {
        -((-value + by / 2) / by)
    }
}

/// `v` held inside `[lo, hi]`, for `lo <= hi`.
pub open spec fn spec_clamp(v: int, lo: int, hi: int) -> int {
    if v < lo {
        lo
    } else if v > hi {
        hi
    } else {
        v
    }
}

impl Grid {
    pub fn new(area: Rect, metrics: Metrics) -> (g: Self)
        ensures
            g.area == area,
            g.metrics == metrics,
    {
        Self { area, metrics }
    }

    /// Every size and position is a sane screen quantity, a cell plus its gap is at least
    /// one pixel each way, and the cells can be counted in an `i32`.
    pub open spec fn wf(self) -> bool {
        &&& bounded(self.area.x, -COORD_LIMIT)
        &&& bounded(self.area.y, -COORD_LIMIT)
        &&& bounded(self.area.w, 0)
        &&& bounded(self.area.h, 0)
        &&& bounded(self.metrics.icon, 0)
        &&& bounded(self.metrics.cell_w, 0)
        &&& bounded(self.metrics.cell_h, 0)
        &&& bounded(self.metrics.gap, 0)
        &&& bounded(self.metrics.margin, 0)
        &&& self.metrics.cell_w + self.metrics.gap >= 1
        &&& self.metrics.cell_h + self.metrics.gap >= 1
        &&& self.spec_rows() * self.spec_columns() <= i32::MAX
    }

    /// The distance from one column to the next.
    pub open spec fn step_x(self) -> int {
        self.metrics.cell_w + self.metrics.gap
    }

    /// The distance from one row to the next.
    pub open spec fn step_y(self) -> int {
        self.metrics.cell_h + self.metrics.gap
    }

    /// The room the columns have: the width inside the margins, plus the gap the last
    /// column does not need.
    pub open spec fn usable_x(self) -> int {
        self.area.w - 2 * self.metrics.margin + self.metrics.gap
    }

    pub open spec fn usable_y(self) -> int {
        self.area.h - 2 * self.metrics.margin + self.metrics.gap
    }

    /// How many cells fit in one column; always at least one.
    pub open spec fn spec_rows(self) -> int {
        if self.usable_y() < self.step_y() {
            1
        } else {
            self.usable_y() / self.step_y()
        }
    }

    /// How many columns fit; always at least one.
    pub open spec fn spec_columns(self) -> int {
        if self.usable_x() < self.step_x() {
            1
        } else {
            self.usable_x() / self.step_x()
        }
    }

    pub open spec fn spec_capacity(self) -> int {
        self.spec_rows() * self.spec_columns()
    }

    /// The right edge of the first column: one margin in from the area's right side.
    pub open spec fn right(self) -> int {
        self.area.x + self.area.w - self.metrics.margin
    }

    /// The column cell `index` is in, counted leftward from the right.
    pub open spec fn column_of(self, index: int) -> int {
        index / self.spec_rows()
    }

    /// The row cell `index` is in, counted down from the top.
    pub open spec fn row_of(self, index: int) -> int {
        index % self.spec_rows()
    }

    /// The left edge of cell `index`.
    pub open spec fn slot_x(self, index: int) -> int {
        let column = self.column_of(index);
        self.right() - (column + 1) * self.metrics.cell_w - column * self.metrics.gap
    }

    /// The top edge of cell `index`.
    pub open spec fn slot_y(self, index: int) -> int {
        self.area.y + self.metrics.margin + self.row_of(index) * self.step_y()
    }

    /// Whether cell `index`'s corner can be written in an `i32`.
    pub open spec fn slot_fits(self, index: int) -> bool {
        &&& i32::MIN <= self.slot_x(index) <= i32::MAX
        &&& i32::MIN <= self.slot_y(index) <= i32::MAX
    }

    /// Cell `index` as a rectangle.
    pub open spec fn spec_slot_rect(self, index: int) -> Rect {
        Rect {
            x: self.slot_x(index) as i32,
            y: self.slot_y(index) as i32,
            w: self.metrics.cell_w,
            h: self.metrics.cell_h,
        }
    }

    /// The cell a point lies in, if it lies in one.
    ///
    /// Column `c` covers the points `c * step_x + 1 ..= c * step_x + cell_w` pixels left of
    /// the right edge, and row `r` the points `r * step_y .. r * step_y + cell_h` below the top
    /// margin, so the candidate is found by dividing those distances by the step.
    pub open spec fn spec_slot_at(self, point: Point) -> Option<i32> {
        let from_right = self.right() - point.x;
        let from_top = point.y - (self.area.y + self.metrics.margin);
        let column = (from_right - 1) / self.step_x();
        let row = from_top / self.step_y();
        let index = column * self.spec_rows() + row;
        if from_right < 1 || from_top < 0 {
            None
        } else if column >= self.spec_columns() || row >= self.spec_rows() {
            None
        } else if self.spec_slot_rect(index).spec_contains(point) {
            Some(index as i32)
        } else {
            None
        }
    }

    /// How far, in half pixels, the centre of the pixel at `point` lies left of the centre of
    /// the first column.
    pub open spec fn column_offset(self, point: Point) -> int {
        2 * (self.right() - point.x) - 1 - self.metrics.cell_w
    }

    /// How far, in half pixels, the centre of the pixel at `point` lies below the centre of the
    /// first row.
    pub open spec fn row_offset(self, point: Point) -> int {
        2 * (point.y - (self.area.y + self.metrics.margin)) + 1 - self.metrics.cell_h
    }

    /// The cell whose centre is nearest a point, column and row each chosen separately and
    /// held inside the grid. Offsets are rounded to whole steps, halves away from the first
    /// cell.
    pub open spec fn spec_nearest_slot(self, point: Point) -> int {
        let column = spec_clamp(
            spec_div_round(self.column_offset(point), 2 * self.step_x()),
            0,
            self.spec_columns() - 1,
        );
        let row = spec_clamp(
            spec_div_round(self.row_offset(point), 2 * self.step_y()),
            0,
            self.spec_rows() - 1,
        );
        column * self.spec_rows() + row
    }

    /// A freely placed cell's corner, pulled back onto the area.
    pub open spec fn spec_clamp_point(self, point: Point) -> Point {
        let max_x = if self.area.x + self.area.w - self.metrics.cell_w > self.area.x {
            self.area.x + self.area.w - self.metrics.cell_w
        } else {
            self.area.x as int
        };
        let max_y = if self.area.y + self.area.h - self.metrics.cell_h > self.area.y {
            self.area.y + self.area.h - self.metrics.cell_h
        } else {
            self.area.y as int
        };
        Point {
            x: spec_clamp(point.x as int, self.area.x as int, max_x) as i32,
            y: spec_clamp(point.y as int, self.area.y as int, max_y) as i32,
        }
    }

    /// Whether this grid's sizes are sane enough to lay out on; see [`Grid::wf`].
    pub fn is_valid(&self) -> (r: bool)
        ensures
            r == self.wf(),
    {
        let m = self.metrics;
        let a = self.area;
        if !(-COORD_LIMIT <= a.x && a.x <= COORD_LIMIT && -COORD_LIMIT <= a.y && a.y
            <= COORD_LIMIT && 0 <= a.w && a.w <= COORD_LIMIT && 0 <= a.h && a.h <= COORD_LIMIT
            && 0 <= m.icon && m.icon <= COORD_LIMIT && 0 <= m.cell_w && m.cell_w <= COORD_LIMIT
            && 0 <= m.cell_h && m.cell_h <= COORD_LIMIT && 0 <= m.gap && m.gap <= COORD_LIMIT
            && 0 <= m.margin && m.margin <= COORD_LIMIT && m.cell_w + m.gap >= 1 && m.cell_h
            + m.gap >= 1) {
            return false;
        }
        let rows = self.rows_unchecked() as i64;
        let columns = self.columns_unchecked() as i64;
        proof {
            lemma_counts_bounded(*self);
            assert(rows * columns <= 4 * COORD_LIMIT * COORD_LIMIT) by (nonlinear_arith)
                requires
                    1 <= rows <= 2 * COORD_LIMIT,
                    1 <= columns <= 2 * COORD_LIMIT,
            ;
        }
        rows * columns <= i32::MAX as i64
    }

    fn rows_unchecked(&self) -> (r: i32)
        requires
            bounded(self.area.h, 0),
            bounded(self.metrics.cell_h, 0),
            bounded(self.metrics.gap, 0),
            bounded(self.metrics.margin, 0),
            self.metrics.cell_h + self.metrics.gap >= 1,
        ensures
            r == self.spec_rows(),
    {
        let usable = self.area.h - 2 * self.metrics.margin + self.metrics.gap;
        let step = self.metrics.cell_h + self.metrics.gap;
        if usable < step {
            1
        } else {
            usable / step
        }
    }

    fn columns_unchecked(&self) -> (r: i32)
        requires
            bounded(self.area.w, 0),
            bounded(self.metrics.cell_w, 0),
            bounded(self.metrics.gap, 0),
            bounded(self.metrics.margin, 0),
            self.metrics.cell_w + self.metrics.gap >= 1,
        ensures
            r == self.spec_columns(),
    {
        let usable = self.area.w - 2 * self.metrics.margin + self.metrics.gap;
        let step = self.metrics.cell_w + self.metrics.gap;
        if usable < step {
            1
        } else {
            usable / step
        }
    }

    /// How many cells fit in one column, top to bottom. Always at least one, so a very short
    /// screen still lays icons out in a single row rather than dividing by zero.
    pub fn rows(&self) -> (r: i32)
        requires
            self.wf(),
        ensures
            r == self.spec_rows(),
            r >= 1,
    {
        proof {
            lemma_counts_bounded(*self);
        }
        self.rows_unchecked()
    }

    /// How many columns fit, right to left. Always at least one.
    pub fn columns(&self) -> (r: i32)
        requires
            self.wf(),
        ensures
            r == self.spec_columns(),
            r >= 1,
    {
        proof {
            lemma_counts_bounded(*self);
        }
        self.columns_unchecked()
    }

    /// Every cell that fits.
    pub fn capacity(&self) -> (r: i32)
        requires
            self.wf(),
        ensures
            r == self.spec_capacity(),
            r >= 1,
    {
        let rows = self.rows();
        let columns = self.columns();
        proof {
            lemma_counts_bounded(*self);
            assert(rows * columns >= 1) by (nonlinear_arith)
                requires
                    rows >= 1,
                    columns >= 1,
            ;
        }
        rows * columns
    }
}


impl Grid {
    /// Where cell `index` sits.
    ///
    /// Indices advance **down** a column first and then **leftward**, so index 0 is the
    /// top-right corner and index `rows()` starts the second column in from the right.
    pub fn slot_rect(&self, index: i32) -> (r: Rect)
        requires
            self.wf(),
            self.slot_fits(index as int),
        ensures
            r == self.spec_slot_rect(index as int),
    {
        let rows = self.rows() as i64;
        let i = index as i64;
        let column: i64;
        let row: i64;
        if i >= 0 {
            column = i / rows;
            row = i % rows;
            proof {
                lemma_div_mod(i as int, rows as int);
            }
        } else {
            let n = -(i + 1);
            proof {
                lemma_div_mod(n as int, rows as int);
            }
            column = -(n / rows) - 1;
            row = rows - 1 - n % rows;
            proof {
                assert(i == column * rows + row) by (nonlinear_arith)
                    requires
                        n == rows * (n / rows) + n % rows,
                        i == -n - 1,
                        column == -(n / rows) - 1,
                        row == rows - 1 - n % rows,
                ;
                lemma_fundamental_div_mod_converse(i as int, rows as int, column as int, row as int);
            }
        }
        proof {
            lemma_counts_bounded(*self);
            lemma_div_bounds(i as int, rows as int);
        }
        let m = self.metrics;
        let right = self.area.x as i64 + self.area.w as i64 - m.margin as i64;
        proof {
            lemma_product_bounded(column + 1, m.cell_w as int);
            lemma_product_bounded(column as int, m.gap as int);
            lemma_product_bounded(row as int, m.cell_h + m.gap);
        }
        let x = right - (column + 1) * m.cell_w as i64 - column * m.gap as i64;
        let y = self.area.y as i64 + m.margin as i64 + row * (m.cell_h as i64 + m.gap as i64);
        Rect::new(x as i32, y as i32, m.cell_w, m.cell_h)
    }

    /// Which cell contains `point`, if any. The inverse of [`Grid::slot_rect`].
    ///
    /// Points in the gaps between cells belong to no cell, so the candidate is computed and
    /// then checked against its own rect.
    pub fn slot_at(&self, point: Point) -> (r: Option<i32>)
        requires
            self.wf(),
        ensures
            r == self.spec_slot_at(point),
            r matches Some(i) ==> 0 <= i < self.spec_capacity() && self.spec_slot_rect(
                i as int,
            ).spec_contains(point),
    {
        let m = self.metrics;
        let right = self.area.x as i64 + self.area.w as i64 - m.margin as i64;
        let from_right = right - point.x as i64;
        let from_top = point.y as i64 - (self.area.y as i64 + m.margin as i64);
        if from_right < 1 || from_top < 0 {
            return None;
        }
        let step_x = m.cell_w as i64 + m.gap as i64;
        let step_y = m.cell_h as i64 + m.gap as i64;
        // A cell's leftmost pixel is a whole cell width from its right edge, so the distance
        // is counted from one pixel in: with no gap the columns still part exactly.
        let column = (from_right - 1) / step_x;
        let row = from_top / step_y;
        let rows = self.rows() as i64;
        let columns = self.columns() as i64;
        proof {
            lemma_div_mod(from_right - 1, step_x as int);
            lemma_div_mod(from_top as int, step_y as int);
            assert(column >= 0 && row >= 0) by (nonlinear_arith)
                requires
                    from_right - 1 >= 0,
                    from_top >= 0,
                    step_x >= 1,
                    step_y >= 1,
                    column == (from_right - 1) / (step_x as int),
                    row == from_top / step_y,
            ;
        }
        if column >= columns || row >= rows {
            return None;
        }
        proof {
            lemma_index_in_capacity(*self, column as int, row as int);
        }
        let index = column * rows + row;
        proof {
            lemma_slot_geometry(*self, index as int);
        }
        if self.slot_rect(index as i32).contains(point) {
            Some(index as i32)
        } else {
            None
        }
    }

    /// The cell nearest `point`, for snapping a dropped icon.
    ///
    /// Unlike [`Grid::slot_at`] this always answers: a drop in a gap, or past the last cell,
    /// still has to land somewhere.
    pub fn nearest_slot(&self, point: Point) -> (r: i32)
        requires
            self.wf(),
        ensures
            r == self.spec_nearest_slot(point),
            0 <= r < self.spec_capacity(),
    {
        let m = self.metrics;
        let right = self.area.x as i64 + self.area.w as i64 - m.margin as i64;
        let rows = self.rows() as i64;
        let columns = self.columns() as i64;
        // Measure from pixel centre to cell centre, in half pixels, and round to the closest
        // column/row rather than truncating, so an icon dropped just past the point halfway
        // between two cells snaps forward instead of always backward.
        let c = div_round(
            2 * (right - point.x as i64) - 1 - m.cell_w as i64,
            2 * (m.cell_w as i64 + m.gap as i64),
        );
        let column = if c < 0 {
            0
        } else if c > columns - 1 {
            columns - 1
        } else {
            c
        };
        let rr = div_round(
            2 * (point.y as i64 - (self.area.y as i64 + m.margin as i64)) + 1 - m.cell_h as i64,
            2 * (m.cell_h as i64 + m.gap as i64),
        );
        let row = if rr < 0 {
            0
        } else if rr > rows - 1 {
            rows - 1
        } else {
            rr
        };
        proof {
            lemma_index_in_capacity(*self, column as int, row as int);
        }
        (column * rows + row) as i32
    }

    /// Keep a freely-placed icon on screen.
    pub fn clamp(&self, point: Point) -> (r: Point)
        requires
            self.wf(),
        ensures
            r == self.spec_clamp_point(point),
    {
        let a = self.area;
        let max_x = if a.x as i64 + a.w as i64 - self.metrics.cell_w as i64 > a.x as i64 {
            a.x as i64 + a.w as i64 - self.metrics.cell_w as i64
        } else {
            a.x as i64
        };
        let max_y = if a.y as i64 + a.h as i64 - self.metrics.cell_h as i64 > a.y as i64 {
            a.y as i64 + a.h as i64 - self.metrics.cell_h as i64
        } else {
            a.y as i64
        };
        let x = clamp_i64(point.x as i64, a.x as i64, max_x);
        let y = clamp_i64(point.y as i64, a.y as i64, max_y);
        Point::new(x as i32, y as i32)
    }
}

fn clamp_i64(v: i64, lo: i64, hi: i64) -> (r: i64)
    requires
        lo <= hi,
    ensures
        r == spec_clamp(v as int, lo as int, hi as int),
        lo <= r <= hi,
{
    if v < lo {
        lo
    } else if v > hi {
        hi
    } else {
        v
    }
}

/// Round a division to the nearest integer, for negatives too.
fn div_round(value: i64, by: i64) -> (r: i64)
    requires
        by >= 1,
        -0x10_0000_0000 <= value <= 0x10_0000_0000,
        by <= 0x1_0000_0000,
    ensures
        r == spec_div_round(value as int, by as int),
{
    let half = by / 2;
    if value >= 0 {
        (value + half) / by
    } else {
        -((-value + half) / by)
    }
}

/// `x` is `d` times its quotient plus its remainder, and the remainder is below `d`.
pub proof fn lemma_div_mod(x: int, d: int)
    requires
        d > 0,
    ensures
        x == d * (x / d) + x % d,
        0 <= x % d < d,
{
    lemma_fundamental_div_mod(x, d);
    lemma_mod_bound(x, d);
}

/// An `i32` divided by a positive count keeps the `i32` bounds.
proof fn lemma_div_bounds(x: int, d: int)
    requires
        d > 0,
        i32::MIN <= x <= i32::MAX,
    ensures
        i32::MIN <= x / d <= i32::MAX,
{
    lemma_div_mod(x, d);
    assert(i32::MIN <= x / d <= i32::MAX) by (nonlinear_arith)
        requires
            x == d * (x / d) + x % d,
            0 <= x % d < d,
            d > 0,
            i32::MIN <= x <= i32::MAX,
    ;
}

/// A count of cells times a screen quantity fits comfortably in an `i64`.
proof fn lemma_product_bounded(a: int, b: int)
    requires
        -0x1_0000_0000 <= a <= 0x1_0000_0000,
        0 <= b <= 0x2000_0000,
    ensures
        -0x2000_0000_0000_0000 <= a * b <= 0x2000_0000_0000_0000,
{
    assert(-0x2000_0000_0000_0000 <= a * b <= 0x2000_0000_0000_0000) by (nonlinear_arith)
        requires
            -0x1_0000_0000 <= a <= 0x1_0000_0000,
            0 <= b <= 0x2000_0000,
    ;
}

/// A column and row inside the grid name a cell inside its capacity.
proof fn lemma_index_in_capacity(g: Grid, column: int, row: int)
    requires
        g.wf(),
        0 <= column < g.spec_columns(),
        0 <= row < g.spec_rows(),
    ensures
        0 <= column * g.spec_rows() + row < g.spec_capacity(),
        (column * g.spec_rows() + row) / g.spec_rows() == column,
        (column * g.spec_rows() + row) % g.spec_rows() == row,
{
    let r = g.spec_rows();
    let c = g.spec_columns();
    assert(0 <= column * r + row < r * c) by (nonlinear_arith)
        requires
            0 <= column < c,
            0 <= row < r,
    ;
    lemma_fundamental_div_mod_converse(column * r + row, r, column, row);
}

/// A cell inside the capacity has its column and row inside the grid, its corner in `i32`
/// range, and -- along whichever axis at least one cell genuinely fits -- lies inside the
/// area.
pub proof fn lemma_slot_geometry(g: Grid, index: int)
    requires
        g.wf(),
        0 <= index < g.spec_capacity(),
    ensures
        0 <= g.column_of(index) < g.spec_columns(),
        0 <= g.row_of(index) < g.spec_rows(),
        g.slot_fits(index),
        g.slot_x(index) + g.metrics.cell_w <= g.right(),
        g.slot_y(index) >= g.area.y + g.metrics.margin,
        g.usable_x() >= g.step_x() ==> g.area.x + g.metrics.margin <= g.slot_x(index),
        g.usable_y() >= g.step_y() ==> g.slot_y(index) + g.metrics.cell_h <= g.area.y
            + g.area.h - g.metrics.margin,
{
    let r = g.spec_rows();
    let c = g.spec_columns();
    lemma_counts_bounded(g);
    lemma_div_mod(index, r);
    let q = index / r;
    let m = index % r;
    assert(0 <= q < c) by (nonlinear_arith)
        requires
            index == r * q + m,
            0 <= m < r,
            0 <= index < r * c,
            r >= 1,
    ;
    let cw = g.metrics.cell_w as int;
    let gap = g.metrics.gap as int;
    let sx = g.step_x();
    let sy = g.step_y();
    assert((q + 1) * cw + q * gap == (q + 1) * sx - gap) by (nonlinear_arith)
        requires
            sx == cw + gap,
    ;
    if g.usable_x() >= sx {
        lemma_div_mod(g.usable_x(), sx);
        assert((q + 1) * sx <= g.usable_x()) by (nonlinear_arith)
            requires
                q + 1 <= c,
                c == g.usable_x() / sx,
                g.usable_x() == sx * (g.usable_x() / sx) + g.usable_x() % sx,
                0 <= g.usable_x() % sx,
                sx >= 1,
        ;
        assert(g.slot_x(index) >= g.area.x + g.metrics.margin);
    } else {
        assert(q == 0);
        assert((q + 1) * sx == sx) by (nonlinear_arith)
            requires
                q == 0,
        ;
    }
    assert(q * sx >= 0 && (q + 1) * sx >= sx) by (nonlinear_arith)
        requires
            q >= 0,
            sx >= 1,
    ;
    if g.usable_y() >= sy {
        lemma_div_mod(g.usable_y(), sy);
        assert((m + 1) * sy <= g.usable_y()) by (nonlinear_arith)
            requires
                m + 1 <= r,
                r == g.usable_y() / sy,
                g.usable_y() == sy * (g.usable_y() / sy) + g.usable_y() % sy,
                0 <= g.usable_y() % sy,
                sy >= 1,
        ;
        assert(m * sy + sy == (m + 1) * sy) by (nonlinear_arith);
    } else {
        assert(m == 0);
        assert(m * sy == 0) by (nonlinear_arith)
            requires
                m == 0,
        ;
    }
    assert(m * sy >= 0) by (nonlinear_arith)
        requires
            m >= 0,
            sy >= 1,
    ;
    assert(g.column_of(index) == q);
    assert(g.row_of(index) == m);
    assert(g.slot_x(index) == g.right() - ((q + 1) * sx - gap));
    assert(g.slot_y(index) == g.area.y + g.metrics.margin + m * sy);
    assert(g.slot_x(index) <= g.right() - g.metrics.cell_w);
    assert(g.slot_x(index) >= i32::MIN);
    assert(g.slot_y(index) <= i32::MAX);
}


/// Where one icon is, however it got there.
#[derive(Debug, Clone, Copy, PartialEq, Eq, Structural)]
pub enum Spot {
    /// In a grid cell.
    Slot(i32),
    /// Wherever it was dropped, as the cell's top-left corner.
    Free(Point),
}

/// One laid-out icon: the entry and the cell it occupies.
#[derive(Debug, Clone, PartialEq)]
pub struct Placed {
    pub entry: Entry,
    pub spot: Spot,
    pub rect: Rect,
}

impl Grid {
    /// The rectangle an icon at `spot` occupies.
    pub open spec fn spec_rect_for(self, spot: Spot) -> Rect {
        match spot {
            Spot::Slot(index) => self.spec_slot_rect(index as int),
            Spot::Free(point) => Rect {
                x: point.x,
                y: point.y,
                w: self.metrics.cell_w,
                h: self.metrics.cell_h,
            },
        }
    }

    /// A remembered spot the layout can honor without leaving `i32`: a slot it will rehome,
    /// or one whose corner fits.
    pub open spec fn remembered_ok(self, spot: Option<Spot>) -> bool {
        match spot {
            Some(Spot::Slot(index)) => index < 0 || index >= self.spec_capacity() || self.slot_fits(
                index as int,
            ),
            _ => true,
        }
    }

    /// There is room in an `i32` for `count` cells handed out from zero.
    ///
    /// A layout hands out at most one new cell per entry, so no index it computes passes
    /// `2 * count`, and each cell's corner is an index times the column step away from the
    /// right edge. Holding `(2 * count + 1)` steps to 2^30 keeps those corners, and the
    /// remembered cells next to them, inside an `i32` without stating the exact bound of each.
    pub open spec fn room_for(self, count: int) -> bool {
        (2 * count + 1) * self.step_x() <= 0x4000_0000
    }
}

impl Grid {
    /// Whether a remembered spot is one the layout can honor; see [`Grid::remembered_ok`].
    pub fn honors(&self, spot: Option<Spot>) -> (r: bool)
        requires
            self.wf(),
        ensures
            r == self.remembered_ok(spot),
    {
        match spot {
            Some(Spot::Slot(index)) => {
                let capacity = self.capacity();
                if index < 0 || index >= capacity {
                    return true;
                }
                let rows = self.rows() as i64;
                proof {
                    lemma_counts_bounded(*self);
                    assert(-0x8000_0000 <= (index as int) / (rows as int) <= 0x8000_0000) by (nonlinear_arith)
                        requires
                            rows >= 1,
                            i32::MIN <= index <= i32::MAX,
                    ;
                }
                let column = (index as i64).checked_div_euclid(rows).unwrap();
                let row = (index as i64).checked_rem_euclid(rows).unwrap();
                assert(0 <= row < rows);
                let m = self.metrics;
                let right = self.area.x as i64 + self.area.w as i64 - m.margin as i64;
                assert(-0x1000_0000_0000_0000 <= (column + 1) * (m.cell_w as i64) <= 0x1000_0000_0000_0000) by (nonlinear_arith)
                    requires
                        -0x8000_0000 <= column <= 0x8000_0000,
                        0 <= m.cell_w <= COORD_LIMIT,
                ;
                assert(-0x1000_0000_0000_0000 <= column * (m.gap as i64) <= 0x1000_0000_0000_0000) by (nonlinear_arith)
                    requires
                        -0x8000_0000 <= column <= 0x8000_0000,
                        0 <= m.gap <= COORD_LIMIT,
                ;
                assert(0 <= row * (m.cell_h as i64 + m.gap as i64) <= 0x1000_0000_0000_0000) by (nonlinear_arith)
                    requires
                        0 <= row <= 2 * COORD_LIMIT,
                        0 <= m.cell_h + m.gap <= 2 * COORD_LIMIT,
                ;
                let x = right - (column + 1) * (m.cell_w as i64) - column * (m.gap as i64);
                let y = self.area.y as i64 + m.margin as i64 + row * (m.cell_h as i64 + m.gap as i64);
                i32::MIN as i64 <= x && x <= i32::MAX as i64 && i32::MIN as i64 <= y && y
                    <= i32::MAX as i64
            },
            _ => true,
        }
    }

    /// Whether there is room in an `i32` for `count` cells handed out from zero; see
    /// [`Grid::room_for`].
    pub fn has_room_for(&self, count: usize) -> (r: bool)
        requires
            self.wf(),
        ensures
            r == self.room_for(count as int),
    {
        if count > 0x4000_0000 {
            proof {
                assert((2 * count + 1) * self.step_x() > 0x4000_0000) by (nonlinear_arith)
                    requires
                        count > 0x4000_0000,
                        self.step_x() >= 1,
                ;
            }
            return false;
        }
        let step = self.metrics.cell_w as u64 + self.metrics.gap as u64;
        let c = count as u64;
        assert((2 * c + 1) * step <= 0x8000_0001 * 0x2000_0000) by (nonlinear_arith)
            requires
                c <= 0x4000_0000,
                step <= 0x2000_0000,
        ;
        (2 * c + 1) * step <= 0x4000_0000
    }
}

/// The first pass of [`arrange`]: honor what is remembered.
///
/// A remembered slot is kept if it is one of the grid's cells and no earlier entry claimed it
/// first;
/// a remembered free point is always kept, pulled back onto the screen. Returns the spot of
/// every entry (`None` for the ones still to place) and the set of slots claimed.
pub open spec fn first_pass(g: Grid, remembered: Seq<Option<Spot>>) -> (Seq<Option<Spot>>, Set<int>)
    decreases remembered.len(),
{
    if remembered.len() == 0 {
        (Seq::empty(), Set::empty())
    } else {
        let prev = first_pass(g, remembered.drop_last());
        match remembered.last() {
            Some(Spot::Slot(index)) => {
                if 0 <= index < g.spec_capacity() && !prev.1.contains(index as int) {
                    (prev.0.push(Some(Spot::Slot(index))), prev.1.insert(index as int))
                } else {
                    (prev.0.push(None), prev.1)
                }
            },
            Some(Spot::Free(point)) => (
                prev.0.push(Some(Spot::Free(g.spec_clamp_point(point)))),
                prev.1,
            ),
            None => (prev.0.push(None), prev.1),
        }
    }
}

/// The lowest number at or above `from` that `taken` does not hold.
pub open spec fn lowest_free(taken: Set<int>, from: int) -> int
    decreases taken.len(),
    when taken.finite()
{
    if !taken.contains(from) {
        from
    } else {
        lowest_free(taken.remove(from), from + 1)
    }
}

/// The second pass of [`arrange`]: every entry still unplaced takes the lowest free cell,
/// in order. Returns the spots, the slots now taken, and where the search for the next free
/// cell resumes.
pub open spec fn fill(placed: Seq<Option<Spot>>, taken: Set<int>) -> (Seq<Spot>, Set<int>, int)
    decreases placed.len(),
{
    if placed.len() == 0 {
        (Seq::empty(), taken, 0)
    } else {
        let prev = fill(placed.drop_last(), taken);
        match placed.last() {
            Some(spot) => (prev.0.push(spot), prev.1, prev.2),
            None => {
                let cell = lowest_free(prev.1, prev.2);
                (prev.0.push(Spot::Slot(cell as i32)), prev.1.insert(cell), cell)
            },
        }
    }
}

/// Where [`arrange`] puts each entry, given what is remembered for each.
pub open spec fn spec_arrange(g: Grid, remembered: Seq<Option<Spot>>) -> Seq<Spot> {
    let first = first_pass(g, remembered);
    fill(first.0, first.1).0
}

proof fn lemma_lowest_free_basics(s: Set<int>, from: int)
    requires
        s.finite(),
    ensures
        lowest_free(s, from) >= from,
        !s.contains(lowest_free(s, from)),
        forall|m: int| from <= m < lowest_free(s, from) ==> s.contains(m),
    decreases s.len(),
{
    broadcast use vstd::set::group_set_axioms;

    if s.contains(from) {
        lemma_lowest_free_basics(s.remove(from), from + 1);
    }
}

/// The lowest free number is the only one that is free with everything below it taken.
proof fn lemma_lowest_free_unique(s: Set<int>, from: int, k: int)
    requires
        s.finite(),
        k >= from,
        !s.contains(k),
        forall|m: int| from <= m < k ==> s.contains(m),
    ensures
        lowest_free(s, from) == k,
{
    lemma_lowest_free_basics(s, from);
    let l = lowest_free(s, from);
    if l < k {
        assert(s.contains(l));
    } else if k < l {
        assert(s.contains(k));
    }
}

/// Everything below `k` is taken, so there are at least `k` taken numbers.
proof fn lemma_prefix_len(s: Set<int>, k: int)
    requires
        s.finite(),
        k >= 0,
        forall|m: int| 0 <= m < k ==> s.contains(m),
    ensures
        k <= s.len(),
{
    vstd::set_lib::lemma_int_range(0, k);
    vstd::set_lib::lemma_len_subset(vstd::set_lib::set_int_range(0, k), s);
}

proof fn lemma_first_pass(g: Grid, remembered: Seq<Option<Spot>>)
    ensures
        first_pass(g, remembered).0.len() == remembered.len(),
        first_pass(g, remembered).1.finite(),
        first_pass(g, remembered).1.len() <= remembered.len(),
        forall|i: int|
            0 <= i < remembered.len() ==> match #[trigger] first_pass(g, remembered).0[i] {
                Some(Spot::Slot(k)) => first_pass(g, remembered).1.contains(k as int)
                    && remembered[i] == Some(Spot::Slot(k)) && 0 <= k < g.spec_capacity(),
                Some(Spot::Free(p)) => exists|q: Point|
                    remembered[i] == Some(Spot::Free(q)) && p == g.spec_clamp_point(q),
                None => true,
            },
        forall|i: int, j: int|
            0 <= i < j < remembered.len() ==> match (
                #[trigger] first_pass(g, remembered).0[i],
                #[trigger] first_pass(g, remembered).0[j],
            ) {
                (Some(Spot::Slot(a)), Some(Spot::Slot(b))) => a != b,
                _ => true,
            },
    decreases remembered.len(),
{
    broadcast use vstd::set::group_set_axioms;

    if remembered.len() > 0 {
        let rest = remembered.drop_last();
        lemma_first_pass(g, rest);
        let prev = first_pass(g, rest);
        let cur = first_pass(g, remembered);
        let n = remembered.len() - 1;
        assert forall|i: int| 0 <= i < n implies #[trigger] cur.0[i] == prev.0[i]
            && remembered[i] == rest[i] by {}
        match remembered.last() {
            Some(Spot::Free(q)) => {
                assert(remembered[n] == Some(Spot::Free(q)));
            },
            _ => {},
        }
    }
}

proof fn lemma_fill(placed: Seq<Option<Spot>>, taken: Set<int>)
    requires
        taken.finite(),
        taken.len() + placed.len() <= i32::MAX,
    ensures
        fill(placed, taken).0.len() == placed.len(),
        fill(placed, taken).1.finite(),
        fill(placed, taken).1.len() <= taken.len() + placed.len(),
        taken.subset_of(fill(placed, taken).1),
        0 <= fill(placed, taken).2,
        forall|m: int| 0 <= m < fill(placed, taken).2 ==> fill(placed, taken).1.contains(m),
        forall|i: int|
            0 <= i < placed.len() ==> match placed[i] {
                Some(s) => #[trigger] fill(placed, taken).0[i] == s,
                None => exists|k: int|
                    0 <= k < fill(placed, taken).1.len() && fill(placed, taken).0[i]
                        == Spot::Slot(k as i32) && !taken.contains(k) && fill(
                        placed,
                        taken,
                    ).1.contains(k),
            },
        forall|i: int, j: int|
            0 <= i < j < placed.len() && placed[j] is None ==> match (
                #[trigger] fill(placed, taken).0[i],
                #[trigger] fill(placed, taken).0[j],
            ) {
                (Spot::Slot(a), Spot::Slot(b)) => (placed[i] is None || taken.contains(a as int))
                    ==> a != b,
                _ => true,
            },
    decreases placed.len(),
{
    broadcast use vstd::set::group_set_axioms;

    if placed.len() > 0 {
        let rest = placed.drop_last();
        lemma_fill(rest, taken);
        let prev = fill(rest, taken);
        let cur = fill(placed, taken);
        let n = placed.len() - 1;
        assert forall|i: int| 0 <= i < n implies #[trigger] cur.0[i] == prev.0[i]
            && placed[i] == rest[i] by {}
        lemma_prefix_len(prev.1, prev.2);
        if placed.last() is None {
            lemma_lowest_free_basics(prev.1, prev.2);
            let k = lowest_free(prev.1, prev.2);
            assert forall|m: int| 0 <= m < k implies prev.1.contains(m) by {
                if m < prev.2 {
                } else {
                }
            }
            lemma_prefix_len(prev.1, k);
            assert(k < cur.1.len());
            assert forall|m: int| 0 <= m < cur.2 implies cur.1.contains(m) by {
                if m < prev.2 {
                } else {
                }
            }
            assert forall|i: int| 0 <= i < placed.len() implies match placed[i] {
                Some(s) => #[trigger] cur.0[i] == s,
                None => exists|k: int|
                    0 <= k < cur.1.len() && cur.0[i] == Spot::Slot(k as i32) && !taken.contains(
                        k,
                    ) && cur.1.contains(k),
            } by {
                if i < n {
                    assert(rest[i] == placed[i]);
                    if placed[i] is None {
                        let k2 = choose|k2: int|
                            0 <= k2 < prev.1.len() && prev.0[i] == Spot::Slot(k2 as i32)
                                && !taken.contains(k2) && prev.1.contains(k2);
                        assert(cur.1.contains(k2));
                    }
                } else {
                    assert(cur.0[i] == Spot::Slot(k as i32));
                }
            }
            assert forall|i: int, j: int|
                0 <= i < j < placed.len() && placed[j] is None implies match (
                #[trigger] cur.0[i],
                #[trigger] cur.0[j],
            ) {
                (Spot::Slot(a), Spot::Slot(b)) => (placed[i] is None || taken.contains(a as int))
                    ==> a != b,
                _ => true,
            } by {
                if j < n {
                    assert(rest[j] == placed[j]);
                } else {
                    match cur.0[i] {
                        Spot::Slot(a) => {
                            if placed[i] is None {
                                let k2 = choose|k2: int|
                                    0 <= k2 < prev.1.len() && prev.0[i] == Spot::Slot(k2 as i32)
                                        && !taken.contains(k2) && prev.1.contains(k2);
                                assert(prev.1.contains(a as int));
                            } else if taken.contains(a as int) {
                                assert(prev.1.contains(a as int));
                            }
                        },
                        _ => {},
                    }
                }
            }
        } else {
            assert forall|i: int| 0 <= i < placed.len() implies match placed[i] {
                Some(s) => #[trigger] cur.0[i] == s,
                None => exists|k: int|
                    0 <= k < cur.1.len() && cur.0[i] == Spot::Slot(k as i32) && !taken.contains(
                        k,
                    ) && cur.1.contains(k),
            } by {
                if i < n {
                    assert(rest[i] == placed[i]);
                }
            }
            assert forall|i: int, j: int|
                0 <= i < j < placed.len() && placed[j] is None implies match (
                #[trigger] cur.0[i],
                #[trigger] cur.0[j],
            ) {
                (Spot::Slot(a), Spot::Slot(b)) => (placed[i] is None || taken.contains(a as int))
                    ==> a != b,
                _ => true,
            } by {
                assert(rest[j] == placed[j]);
            }
        }
    }
}


proof fn lemma_push_contains(s: Seq<i32>, v: i32, x: i32)
    ensures
        s.push(v).contains(x) <==> s.contains(x) || x == v,
{
    if s.contains(x) {
        let j = choose|j: int| 0 <= j < s.len() && s[j] == x;
        assert(s.push(v)[j] == x);
    }
    if x == v {
        assert(s.push(v)[s.len() as int] == x);
    }
    if s.push(v).contains(x) {
        let j = choose|j: int| 0 <= j < s.len() + 1 && s.push(v)[j] == x;
        if j < s.len() {
            assert(s[j] == x);
        }
    }
}

/// Every slot the first pass claims is a slot some entry remembered, so it is an `i32`.
proof fn lemma_first_pass_range(g: Grid, remembered: Seq<Option<Spot>>)
    ensures
        forall|k: int| #[trigger] first_pass(g, remembered).1.contains(k) ==> i32::MIN <= k <= i32::MAX,
    decreases remembered.len(),
{
    broadcast use vstd::set::group_set_axioms;

    if remembered.len() > 0 {
        lemma_first_pass_range(g, remembered.drop_last());
        let prev = first_pass(g, remembered.drop_last());
        let cur = first_pass(g, remembered);
        assert forall|k: int| #[trigger] cur.1.contains(k) implies i32::MIN <= k <= i32::MAX by {
            match remembered.last() {
                Some(Spot::Slot(index)) => {
                    if k != index as int {
                        assert(prev.1.contains(k));
                    }
                },
                _ => {
                    assert(prev.1.contains(k));
                },
            }
        }
    }
}

/// Whether `value` is in `list`.
fn holds(list: &Vec<i32>, value: i32) -> (r: bool)
    ensures
        r == list@.contains(value),
{
    for i in 0..list.len()
        invariant
            forall|j: int| 0 <= j < i ==> list@[j] != value,
    {
        if list[i] == value {
            return true;
        }
    }
    false
}

/// A cell handed out counting up from zero still has its corner in `i32` range, as long as
/// the cells up to it would fit in a quarter of that range side by side.
proof fn lemma_slot_fits_from_zero(g: Grid, k: int)
    requires
        g.wf(),
        0 <= k,
        (k + 1) * g.step_x() <= 0x4000_0000,
    ensures
        g.slot_fits(k),
{
    let r = g.spec_rows();
    lemma_counts_bounded(g);
    lemma_div_mod(k, r);
    let q = k / r;
    let m = k % r;
    let sx = g.step_x();
    let sy = g.step_y();
    let cw = g.metrics.cell_w as int;
    let gap = g.metrics.gap as int;
    assert(0 <= q <= k) by (nonlinear_arith)
        requires
            k == r * q + m,
            0 <= m < r,
            0 <= k,
            r >= 1,
    ;
    assert(0 <= (q + 1) * cw + q * gap <= (k + 1) * sx) by (nonlinear_arith)
        requires
            0 <= q <= k,
            sx == cw + gap,
            cw >= 0,
            gap >= 0,
    ;
    if g.usable_y() >= sy {
        lemma_div_mod(g.usable_y(), sy);
        assert((m + 1) * sy <= g.usable_y()) by (nonlinear_arith)
            requires
                m + 1 <= r,
                r == g.usable_y() / sy,
                g.usable_y() == sy * (g.usable_y() / sy) + g.usable_y() % sy,
                0 <= g.usable_y() % sy,
                sy >= 1,
        ;
        assert(0 <= m * sy && m * sy + sy == (m + 1) * sy) by (nonlinear_arith)
            requires
                m >= 0,
                sy >= 1,
        ;
    } else {
        assert(m == 0);
        assert(m * sy == 0) by (nonlinear_arith)
            requires
                m == 0,
        ;
    }
    assert(g.column_of(k) == q);
    assert(g.row_of(k) == m);
}

/// Lay every entry out, given what is remembered for each: `remembered[i]` is the spot
/// entry `i` was left at, if any.
///
/// An entry with a remembered spot keeps it, and a slot is only given up if it no longer
/// exists on this screen or an earlier entry holds it. Everything else takes the first free
/// cell, in order.
pub fn arrange_remembered(grid: &Grid, entries: &[Entry], remembered: &[Option<Spot>]) -> (placed: Vec<
    Placed,
>)
    requires
        grid.wf(),
        remembered.len() == entries.len(),
        grid.room_for(entries.len() as int),
        forall|i: int| 0 <= i < remembered.len() ==> grid.remembered_ok(#[trigger] remembered[i]),
    ensures
        placed.len() == entries.len(),
        forall|i: int|
            0 <= i < entries.len() ==> (#[trigger] placed[i]).entry@ == entries[i]@ && placed[i].spot
                == spec_arrange(*grid, remembered@)[i] && placed[i].rect == grid.spec_rect_for(
                placed[i].spot,
            ),
{
    let n = entries.len();
    let capacity = grid.capacity();
    let ghost rem = remembered@;
    proof {
        lemma_first_pass(*grid, rem);
        assert((2 * n + 1) * grid.step_x() >= 2 * n + 1) by (nonlinear_arith)
            requires
                grid.step_x() >= 1,
                n >= 0,
        ;
        assert(n <= 0x2000_0000);
    }

    // First pass: honor what is remembered, so a new file can never displace an icon the
    // user positioned deliberately.
    let mut taken: Vec<i32> = Vec::new();
    let mut first: Vec<Option<Spot>> = Vec::new();
    for i in 0..n
        invariant
            n == entries.len(),
            n == remembered.len(),
            rem == remembered@,
            capacity == grid.spec_capacity(),
            grid.wf(),
            first@ == first_pass(*grid, rem.take(i as int)).0,
            forall|x: i32|
                taken@.contains(x) <==> first_pass(*grid, rem.take(i as int)).1.contains(x as int),
    {
        proof {
            assert(rem.take(i + 1).drop_last() =~= rem.take(i as int));
            assert(rem.take(i + 1).last() == rem[i as int]);
        }
        let ghost prev = first_pass(*grid, rem.take(i as int));
        let ghost old_taken = taken@;
        let spot = match remembered[i] {
            // A slot past the end of the grid is one the screen used to have and no longer
            // does, and a negative one was never a cell at all; honoring either would draw
            // the icon off the edge, so it is rehomed below.
            Some(Spot::Slot(index)) => {
                if 0 <= index && index < capacity && !holds(&taken, index) {
                    taken.push(index);
                    proof {
                        assert(first_pass(*grid, rem.take(i + 1)).1 == prev.1.insert(index as int));
                        assert forall|x: i32| taken@.contains(x) <==> prev.1.insert(index as int).contains(x as int) by {
                            lemma_push_contains(old_taken, index, x);
                            assert(old_taken.contains(x) <==> prev.1.contains(x as int));
                        }
                    }
                    Some(Spot::Slot(index))
                } else {
                    None
                }
            },
            // A remembered free position is always honored: free icons do not collide,
            // they just overlap, which is what the user asked for by placing them freely.
            Some(Spot::Free(point)) => Some(Spot::Free(grid.clamp(point))),
            None => None,
        };
        first.push(spot);
    }
    proof {
        assert(rem.take(n as int) =~= rem);
        assert(first_pass(*grid, rem.take(n as int)) == first_pass(*grid, rem));
        assert(first@.take(0) =~= Seq::<Option<Spot>>::empty());
        assert(fill(first@.take(0), first_pass(*grid, rem).1).1 == first_pass(*grid, rem).1);
        lemma_first_pass_range(*grid, rem);
    }

    // Second pass: fill the gaps with the lowest free cells.
    let ghost t0 = first_pass(*grid, rem).1;
    proof {
        lemma_fill(first@, t0);
    }
    let mut next: i32 = 0;
    let mut spots: Vec<Spot> = Vec::new();
    for i in 0..n
        invariant
            n == entries.len(),
            n == first@.len(),
            (2 * n + 1) * grid.step_x() <= 0x4000_0000,
            grid.step_x() >= 1,
            n <= 0x2000_0000,
            t0.finite(),
            t0.len() <= n,
            spots@ == fill(first@.take(i as int), t0).0,
            next == fill(first@.take(i as int), t0).2,
            forall|x: i32|
                taken@.contains(x) <==> fill(first@.take(i as int), t0).1.contains(x as int),
            forall|k: int| #[trigger] t0.contains(k) ==> i32::MIN <= k <= i32::MAX,
    {
        let ghost before = fill(first@.take(i as int), t0);
        proof {
            assert(first@.take(i + 1).drop_last() =~= first@.take(i as int));
            assert(first@.take(i + 1).last() == first@[i as int]);
            lemma_fill(first@.take(i as int), t0);
            lemma_fill(first@.take(i + 1), t0);
        }
        match first[i] {
            Some(spot) => spots.push(spot),
            None => {
                let ghost big = before.1;
                let ghost target = lowest_free(big, next as int);
                proof {
                    lemma_lowest_free_basics(big, next as int);
                    assert forall|m: int| 0 <= m < target implies big.contains(m) by {
                        if m < next {
                        } else {
                        }
                    }
                    lemma_prefix_len(big, target);
                }
                while holds(&taken, next)
                    invariant
                        big.finite(),
                        lowest_free(big, next as int) == target,
                        next <= target,
                        target <= big.len(),
                        big.len() <= 2 * n,
                        n <= 0x2000_0000,
                        (2 * n + 1) * grid.step_x() <= 0x4000_0000,
                        grid.step_x() >= 1,
                        forall|x: i32| taken@.contains(x) <==> big.contains(x as int),
                    decreases target - next,
                {
                    proof {
                        lemma_lowest_free_basics(big, next as int);
                        lemma_lowest_free_unique(big, next + 1, target);
                    }
                    next += 1;
                }
                proof {
                    lemma_lowest_free_basics(big, next as int);
                }
                let ghost old_taken = taken@;
                taken.push(next);
                spots.push(Spot::Slot(next));
                proof {
                    assert forall|x: i32| taken@.contains(x) <==> big.insert(target).contains(
                        x as int,
                    ) by {
                        lemma_push_contains(old_taken, next, x);
                        assert(old_taken.contains(x) <==> big.contains(x as int));
                    }
                }
            },
        }
    }
    proof {
        assert(first@.take(n as int) =~= first@);
    }

    let ghost all = fill(first@, t0);
    let mut placed: Vec<Placed> = Vec::new();
    for i in 0..n
        invariant
            n == entries.len(),
            n == spots@.len(),
            n == first@.len(),
            n == rem.len(),
            grid.wf(),
            spots@ == all.0,
            all == fill(first@, t0),
            first@ == first_pass(*grid, rem).0,
            (2 * n + 1) * grid.step_x() <= 0x4000_0000,
            forall|j: int| 0 <= j < rem.len() ==> grid.remembered_ok(#[trigger] rem[j]),
            t0 == first_pass(*grid, rem).1,
            n <= 0x2000_0000,
            placed.len() == i,
            forall|j: int|
                0 <= j < i ==> (#[trigger] placed[j]).entry@ == entries[j]@ && placed[j].spot
                    == spots@[j] && placed[j].rect == grid.spec_rect_for(placed[j].spot),
    {
        let spot = spots[i];
        proof {
            lemma_first_pass(*grid, rem);
            lemma_fill(first@, t0);
        }
        let rect = match spot {
            Spot::Slot(index) => {
                proof {
                    match first@[i as int] {
                        Some(s) => {
                            assert(all.0[i as int] == s);
                            assert(rem[i as int] == Some(Spot::Slot(index)));
                            assert(grid.remembered_ok(rem[i as int]));
                        },
                        None => {
                            let k = choose|k: int|
                                0 <= k < all.1.len() && all.0[i as int] == Spot::Slot(k as i32)
                                    && !t0.contains(k) && all.1.contains(k);
                            assert((k + 1) * grid.step_x() <= 0x4000_0000) by (nonlinear_arith)
                                requires
                                    0 <= k < 2 * n + 1,
                                    (2 * n + 1) * grid.step_x() <= 0x4000_0000,
                                    grid.step_x() >= 1,
                            ;
                            lemma_slot_fits_from_zero(*grid, k);
                        },
                    }
                }
                grid.slot_rect(index)
            },
            Spot::Free(point) => Rect::new(point.x, point.y, grid.metrics.cell_w, grid.metrics.cell_h),
        };
        placed.push(Placed { entry: entries[i].duplicate(), spot, rect });
    }
    placed
}

/// `placed` is `entries` laid out on `grid` with `answers` as what is remembered for each.
pub open spec fn arranged_from(grid: Grid, entries: Seq<Entry>, answers: Seq<Option<Spot>>, placed: Seq<
    Placed,
>) -> bool {
    &&& answers.len() == entries.len()
    &&& placed.len() == entries.len()
    &&& forall|i: int|
        0 <= i < entries.len() ==> (#[trigger] placed[i]).entry@ == entries[i]@ && placed[i].spot
            == spec_arrange(grid, answers)[i] && placed[i].rect == grid.spec_rect_for(placed[i].spot)
}

/// `answer` is something `remembered` may say when asked about a name whose text is `name`.
pub open spec fn answer_for<F: Fn(&str) -> Option<Spot>>(remembered: F, name: Seq<char>, answer: Option<
    Spot,
>) -> bool {
    exists|asked: &str| asked@ == name && #[trigger] remembered.ensures((asked,), answer)
}

/// Each of `answers` is something `remembered` may say about the matching entry's name.
pub open spec fn answered_by<F: Fn(&str) -> Option<Spot>>(remembered: F, entries: Seq<Entry>, answers: Seq<
    Option<Spot>,
>) -> bool {
    forall|i: int|
        0 <= i < answers.len() ==> #[trigger] answer_for(remembered, entries[i].name@, answers[i])
}

/// Lay every entry out, honoring the positions already remembered for them.
///
/// `remembered` is asked about each entry's name once, in order. An entry with a remembered
/// spot keeps it -- that is the whole point of remembering -- and a slot is only given up if
/// it no longer exists on this screen, or another entry got there first. Everything else
/// takes the first free cell, in the order the entries come in.
///
/// **The caller is expected to remember what this hands back**, not just what the user
/// dragged; see [`crate::state::State::arrange`].
pub fn arrange<F: Fn(&str) -> Option<Spot>>(grid: &Grid, entries: &[Entry], remembered: &F) -> (placed:
    Vec<Placed>)
    requires
        grid.wf(),
        grid.room_for(entries.len() as int),
        forall|name: &str| remembered.requires((name,)),
        forall|name: &str, spot: Option<Spot>|
            remembered.ensures((name,), spot) ==> grid.remembered_ok(spot),
    ensures
        exists|answers: Seq<Option<Spot>>|
            answered_by(*remembered, entries@, answers) && #[trigger] arranged_from(
                *grid,
                entries@,
                answers,
                placed@,
            ),
{
    let mut answers: Vec<Option<Spot>> = Vec::new();
    for i in 0..entries.len()
        invariant
            answers.len() == i,
            i <= entries.len(),
            forall|name: &str| remembered.requires((name,)),
            forall|name: &str, spot: Option<Spot>|
                remembered.ensures((name,), spot) ==> grid.remembered_ok(spot),
            answered_by(*remembered, entries@, answers@),
            forall|j: int| 0 <= j < i ==> grid.remembered_ok(#[trigger] answers[j]),
    {
        let name = entries[i].name.as_str();
        let answer = remembered(name);
        let ghost old_answers = answers@;
        answers.push(answer);
        proof {
            assert(answer_for(*remembered, entries@[i as int].name@, answer));
            assert forall|j: int| 0 <= j < answers@.len() implies #[trigger] answer_for(
                *remembered,
                entries@[j].name@,
                answers@[j],
            ) by {
                if j < i {
                    assert(answers@[j] == old_answers[j]);
                }
            }
        }
    }
    let placed = arrange_remembered(grid, entries, answers.as_slice());
    proof {
        assert(arranged_from(*grid, entries@, answers@, placed@));
    }
    placed
}

/// Rows and columns are positive and no more than twice the limit.
pub proof fn lemma_counts_bounded(g: Grid)
    requires
        bounded(g.area.w, 0),
        bounded(g.area.h, 0),
        bounded(g.metrics.cell_w, 0),
        bounded(g.metrics.cell_h, 0),
        bounded(g.metrics.gap, 0),
        bounded(g.metrics.margin, 0),
        g.step_x() >= 1,
        g.step_y() >= 1,
    ensures
        1 <= g.spec_rows() <= 2 * COORD_LIMIT,
        1 <= g.spec_columns() <= 2 * COORD_LIMIT,
{
    if g.usable_y() >= g.step_y() {
        let u = g.usable_y();
        let s = g.step_y();
        assert(u / s >= 1 && u / s <= u) by (nonlinear_arith)
            requires
                u >= s,
                s >= 1,
        ;
    }
    if g.usable_x() >= g.step_x() {
        let u = g.usable_x();
        let s = g.step_x();
        assert(u / s >= 1 && u / s <= u) by (nonlinear_arith)
            requires
                u >= s,
                s >= 1,
        ;
    }
}

/// Along each axis where at least one cell genuinely fits, every cell of the grid lies inside
/// the area it lays out on.
pub proof fn law_cells_inside_area(g: Grid, index: int)
    requires
        g.wf(),
        0 <= index < g.spec_capacity(),
        g.usable_x() >= g.step_x(),
        g.usable_y() >= g.step_y(),
    ensures
        g.area.x <= g.spec_slot_rect(index).x,
        g.area.y <= g.spec_slot_rect(index).y,
        g.spec_slot_rect(index).x + g.metrics.cell_w <= g.area.x + g.area.w,
        g.spec_slot_rect(index).y + g.metrics.cell_h <= g.area.y + g.area.h,
{
    lemma_slot_geometry(g, index);
}

/// Every point of a cell finds that cell again: [`Grid::slot_at`] inverts
/// [`Grid::slot_rect`], also where cells touch with no gap between them.
pub proof fn law_slot_at_inverts_slot_rect(g: Grid, index: int, point: Point)
    requires
        g.wf(),
        0 <= index < g.spec_capacity(),
        g.spec_slot_rect(index).spec_contains(point),
    ensures
        g.spec_slot_at(point) == Some(index as i32),
{
    lemma_slot_geometry(g, index);
    lemma_counts_bounded(g);
    let rows = g.spec_rows();
    let q = g.column_of(index);
    let m = g.row_of(index);
    let sx = g.step_x();
    let sy = g.step_y();
    let cw = g.metrics.cell_w as int;
    let ch = g.metrics.cell_h as int;
    let gap = g.metrics.gap as int;
    lemma_div_mod(index, rows);
    assert((q + 1) * cw + q * gap == q * sx + cw) by (nonlinear_arith)
        requires
            sx == cw + gap,
    ;
    let from_right = g.right() - point.x;
    let from_top = point.y - (g.area.y + g.metrics.margin);
    assert(g.slot_x(index) == g.right() - (q * sx + cw));
    assert(g.slot_y(index) == g.area.y + g.metrics.margin + m * sy);
    assert(q * sx < from_right <= q * sx + cw);
    assert(m * sy <= from_top < m * sy + ch);
    assert(q * sx + cw <= (q + 1) * sx) by (nonlinear_arith)
        requires
            sx == cw + gap,
            gap >= 0,
    ;
    assert(m * sy + ch <= (m + 1) * sy) by (nonlinear_arith)
        requires
            sy == ch + gap,
            gap >= 0,
    ;
    assert(q * sx >= 0 && m * sy >= 0) by (nonlinear_arith)
        requires
            q >= 0,
            m >= 0,
            sx >= 1,
            sy >= 1,
    ;
    lemma_fundamental_div_mod_converse(from_right - 1, sx, q, from_right - 1 - q * sx);
    lemma_fundamental_div_mod_converse(from_top, sy, m, from_top - m * sy);
    assert(q * rows + m == index) by (nonlinear_arith)
        requires
            index == rows * q + m,
    ;
}

/// An offset within half a step of `k` whole steps (all in half pixels) rounds to `k`, and
/// stays `k` when held inside any range that holds `k`.
proof fn lemma_rounds_to(v: int, step: int, k: int, hi: int)
    requires
        step >= 1,
        0 <= k <= hi,
        k * (2 * step) - step <= v < k * (2 * step) + step,
    ensures
        spec_clamp(spec_div_round(v, 2 * step), 0, hi) == k,
{
    assert((2 * step) / 2 == step);
    if v >= 0 {
        assert(k * (2 * step) <= v + step < (k + 1) * (2 * step)) by (nonlinear_arith)
            requires
                k * (2 * step) - step <= v < k * (2 * step) + step,
        ;
        lemma_fundamental_div_mod_converse(v + step, 2 * step, k, v + step - k * (2 * step));
    } else {
        assert(k == 0) by (nonlinear_arith)
            requires
                k * (2 * step) - step <= v < 0,
                k >= 0,
                step >= 1,
        ;
        assert((-v + step) / (2 * step) >= 0) by (nonlinear_arith)
            requires
                -v + step > 0,
                step >= 1,
        ;
    }
}

/// A point inside a cell snaps to that very cell: the nearest centre to any point of a cell is
/// that cell's own, also where cells touch with no gap between them.
pub proof fn law_nearest_slot_of_a_cell_point(g: Grid, index: int, point: Point)
    requires
        g.wf(),
        0 <= index < g.spec_capacity(),
        g.spec_slot_rect(index).spec_contains(point),
    ensures
        g.spec_nearest_slot(point) == index,
{
    lemma_slot_geometry(g, index);
    lemma_counts_bounded(g);
    let rows = g.spec_rows();
    let q = g.column_of(index);
    let m = g.row_of(index);
    let sx = g.step_x();
    let sy = g.step_y();
    let cw = g.metrics.cell_w as int;
    let ch = g.metrics.cell_h as int;
    let gap = g.metrics.gap as int;
    lemma_div_mod(index, rows);
    assert((q + 1) * cw + q * gap == q * sx + cw) by (nonlinear_arith)
        requires
            sx == cw + gap,
    ;
    assert(q * (2 * sx) == 2 * (q * sx) && m * (2 * sy) == 2 * (m * sy)) by (nonlinear_arith);
    assert(g.slot_x(index) == g.right() - (q * sx + cw));
    assert(g.slot_y(index) == g.area.y + g.metrics.margin + m * sy);
    lemma_rounds_to(g.column_offset(point), sx, q, g.spec_columns() - 1);
    lemma_rounds_to(g.row_offset(point), sy, m, rows - 1);
    assert(q * rows + m == index) by (nonlinear_arith)
        requires
            index == rows * q + m,
    ;
}

/// A freely placed icon is pulled back onto the area: its corner is never left of or above the
/// area, nor so far right or down that the cell runs off it (unless the cell is bigger than
/// the area, when it sits at the area's corner). A corner already in range stays exactly where
/// it is, and pulling back twice moves nothing more.
pub proof fn law_clamp_keeps_icons_on_the_area(g: Grid, p: Point)
    requires
        g.wf(),
    ensures
        g.area.x <= g.spec_clamp_point(p).x,
        g.area.y <= g.spec_clamp_point(p).y,
        g.spec_clamp_point(p).x <= g.area.x + g.area.w - g.metrics.cell_w || g.spec_clamp_point(p).x
            == g.area.x,
        g.spec_clamp_point(p).y <= g.area.y + g.area.h - g.metrics.cell_h || g.spec_clamp_point(p).y
            == g.area.y,
        g.area.x <= p.x <= g.area.x + g.area.w - g.metrics.cell_w ==> g.spec_clamp_point(p).x == p.x,
        g.area.y <= p.y <= g.area.y + g.area.h - g.metrics.cell_h ==> g.spec_clamp_point(p).y == p.y,
        g.spec_clamp_point(g.spec_clamp_point(p)) == g.spec_clamp_point(p),
{
}

/// Whether a remembered spot claims cell `k`.
pub open spec fn claims(spot: Option<Spot>, k: int) -> bool {
    spot matches Some(Spot::Slot(x)) && x as int == k
}

/// The first pass over a prefix is the prefix of the first pass.
proof fn lemma_first_pass_prefix(g: Grid, remembered: Seq<Option<Spot>>, n: int)
    requires
        0 <= n <= remembered.len(),
    ensures
        first_pass(g, remembered.subrange(0, n)).0 == first_pass(g, remembered).0.subrange(0, n),
    decreases remembered.len(),
{
    lemma_first_pass(g, remembered);
    if n < remembered.len() {
        let d = remembered.drop_last();
        lemma_first_pass(g, d);
        assert(d.subrange(0, n) =~= remembered.subrange(0, n));
        lemma_first_pass_prefix(g, d, n);
        assert(first_pass(g, remembered).0.subrange(0, n) =~= first_pass(g, d).0.subrange(0, n));
    } else {
        assert(remembered.subrange(0, n) =~= remembered);
        assert(first_pass(g, remembered).0.subrange(0, n) =~= first_pass(g, remembered).0);
    }
}

/// A cell the first pass has claimed is one some entry remembered.
proof fn lemma_first_pass_claims(g: Grid, remembered: Seq<Option<Spot>>)
    ensures
        forall|k: int| #[trigger] first_pass(g, remembered).1.contains(k) ==> exists|j: int|
            0 <= j < remembered.len() && claims(remembered[j], k),
    decreases remembered.len(),
{
    broadcast use vstd::set::group_set_axioms;

    if remembered.len() > 0 {
        let d = remembered.drop_last();
        lemma_first_pass_claims(g, d);
        let prev = first_pass(g, d);
        let cur = first_pass(g, remembered);
        assert forall|k: int| #[trigger] cur.1.contains(k) implies exists|j: int|
            0 <= j < remembered.len() && claims(remembered[j], k) by {
            if prev.1.contains(k) {
                let j = choose|j: int| 0 <= j < d.len() && claims(d[j], k);
                assert(remembered[j] == d[j]);
            } else {
                assert(claims(remembered[remembered.len() - 1], k));
            }
        }
    }
}

/// No two icons are ever given the same cell: a cell two entries remember goes to the first,
/// and the cells handed out fresh are ones nobody holds.
pub proof fn law_arrange_distinct_slots(g: Grid, remembered: Seq<Option<Spot>>, i: int, j: int)
    requires
        remembered.len() <= 0x3fff_ffff,
        0 <= i < j < remembered.len(),
    ensures
        spec_arrange(g, remembered)[i] matches Spot::Slot(a) ==> spec_arrange(g, remembered)[j]
            matches Spot::Slot(b) ==> a != b,
{
    let fp = first_pass(g, remembered);
    lemma_first_pass(g, remembered);
    lemma_fill(fp.0, fp.1);
    let out = fill(fp.0, fp.1).0;
    assert(out == spec_arrange(g, remembered));
    match (out[i], out[j]) {
        (Spot::Slot(a), Spot::Slot(b)) => {
            if fp.0[j] is None {
                if fp.0[i] is Some {
                    assert(out[i] == fp.0[i]->0);
                }
            } else {
                assert(out[j] == fp.0[j]->0);
                assert(fp.1.contains(b as int));
                if fp.0[i] is None {
                    let k = choose|k: int|
                        0 <= k < fill(fp.0, fp.1).1.len() && out[i] == Spot::Slot(k as i32)
                            && !fp.1.contains(k) && fill(fp.0, fp.1).1.contains(k);
                    assert(k == a as int) by {
                        lemma_first_pass_range(g, remembered);
                    }
                } else {
                    assert(out[i] == fp.0[i]->0);
                }
            }
        },
        _ => {},
    }
}

/// An icon keeps the cell it remembers as long as that is one of the grid's cells and no
/// entry before it remembers the same one; an icon remembered at a free position keeps it,
/// pulled back onto the screen.
pub proof fn law_arrange_keeps_remembered(g: Grid, remembered: Seq<Option<Spot>>, i: int)
    requires
        remembered.len() <= 0x3fff_ffff,
        0 <= i < remembered.len(),
    ensures
        remembered[i] matches Some(Spot::Slot(k)) ==> 0 <= k < g.spec_capacity() ==> (forall|j: int|
            0 <= j < i ==> remembered[j] != Some(Spot::Slot(k))) ==> spec_arrange(g, remembered)[i]
            == Spot::Slot(k),
        remembered[i] matches Some(Spot::Free(p)) ==> spec_arrange(g, remembered)[i] == Spot::Free(
            g.spec_clamp_point(p),
        ),
{
    let fp = first_pass(g, remembered);
    lemma_first_pass(g, remembered);
    lemma_fill(fp.0, fp.1);
    let s = remembered.subrange(0, i);
    let t = remembered.subrange(0, i + 1);
    lemma_first_pass_prefix(g, remembered, i + 1);
    lemma_first_pass(g, s);
    lemma_first_pass_claims(g, s);
    assert(t.drop_last() =~= s);
    assert(t.last() == remembered[i]);
    assert(first_pass(g, t).0[i] == fp.0[i]);
    match remembered[i] {
        Some(Spot::Slot(k)) => {
            if 0 <= k < g.spec_capacity() && (forall|j: int| 0 <= j < i ==> remembered[j] != Some(
                Spot::Slot(k),
            )) {
                if first_pass(g, s).1.contains(k as int) {
                    let j = choose|j: int| 0 <= j < s.len() && claims(s[j], k as int);
                    assert(s[j] == remembered[j]);
                    assert(remembered[j] == Some(Spot::Slot(k)));
                }
                assert(fp.0[i] == Some(Spot::Slot(k)));
            }
        },
        Some(Spot::Free(p)) => {
            assert(fp.0[i] == Some(Spot::Free(g.spec_clamp_point(p))));
        },
        None => {},
    }
}

/// How many entries are still to place.
pub open spec fn count_none(placed: Seq<Option<Spot>>) -> nat
    decreases placed.len(),
{
    if placed.len() == 0 {
        0
    } else {
        count_none(placed.drop_last()) + if placed.last() is None {
            1nat
        } else {
            0nat
        }
    }
}

/// Every slot the first pass claims is one more entry that is placed, so the claimed slots
/// and the entries left to place together number no more than the entries.
proof fn lemma_first_pass_count(g: Grid, remembered: Seq<Option<Spot>>)
    ensures
        first_pass(g, remembered).1.len() + count_none(first_pass(g, remembered).0) <= remembered.len(),
    decreases remembered.len(),
{
    broadcast use vstd::set::group_set_axioms;

    lemma_first_pass(g, remembered);
    if remembered.len() > 0 {
        let d = remembered.drop_last();
        lemma_first_pass_count(g, d);
        lemma_first_pass(g, d);
        let cur = first_pass(g, remembered);
        let prev = first_pass(g, d);
        assert(cur.0.drop_last() =~= prev.0);
    }
}

/// Filling hands out one new cell per entry to place, each below the number of cells taken
/// so far plus the entries still to place.
proof fn lemma_fill_count(placed: Seq<Option<Spot>>, taken: Set<int>)
    requires
        taken.finite(),
        taken.len() + placed.len() <= i32::MAX,
    ensures
        fill(placed, taken).1.len() == taken.len() + count_none(placed),
        forall|i: int|
            0 <= i < placed.len() && placed[i] is None ==> (#[trigger] fill(placed, taken).0[i]
                matches Spot::Slot(k) && 0 <= k < taken.len() + count_none(placed)),
    decreases placed.len(),
{
    broadcast use vstd::set::group_set_axioms;

    lemma_fill(placed, taken);
    if placed.len() > 0 {
        let d = placed.drop_last();
        lemma_fill_count(d, taken);
        lemma_fill(d, taken);
        let prev = fill(d, taken);
        let cur = fill(placed, taken);
        let n = placed.len() - 1;
        assert forall|i: int| 0 <= i < n implies #[trigger] cur.0[i] == prev.0[i] && placed[i]
            == d[i] by {}
        if placed.last() is None {
            lemma_lowest_free_basics(prev.1, prev.2);
            let k = lowest_free(prev.1, prev.2);
            assert forall|m: int| 0 <= m < k implies prev.1.contains(m) by {
                if m < prev.2 {
                } else {
                }
            }
            lemma_prefix_len(prev.1, k);
            assert(cur.0[n] == Spot::Slot(k as i32));
        }
    }
}

/// With no more entries than the grid has cells, every cell the layout hands out -- kept or
/// new -- is one the grid has: a cell remembered from a bigger screen is rehomed rather than
/// drawn off the edge.
pub proof fn law_arrange_in_capacity(g: Grid, remembered: Seq<Option<Spot>>, i: int)
    requires
        remembered.len() <= g.spec_capacity(),
        remembered.len() <= 0x3fff_ffff,
        0 <= i < remembered.len(),
    ensures
        spec_arrange(g, remembered)[i] matches Spot::Slot(k) ==> 0 <= k < g.spec_capacity(),
{
    let fp = first_pass(g, remembered);
    lemma_first_pass(g, remembered);
    lemma_first_pass_count(g, remembered);
    lemma_fill(fp.0, fp.1);
    lemma_fill_count(fp.0, fp.1);
    match fp.0[i] {
        Some(s) => {
            assert(spec_arrange(g, remembered)[i] == s);
        },
        None => {},
    }
}

/// Clamping a point already pulled onto the area leaves it where it is.
proof fn lemma_clamp_idempotent(g: Grid, q: Point)
    requires
        g.wf(),
    ensures
        g.spec_clamp_point(g.spec_clamp_point(q)) == g.spec_clamp_point(q),
{
}

/// A layout that is all slots the grid has, each held once, and free points already on the
/// area, is honored as it stands by the first pass.
proof fn lemma_first_pass_fixed(g: Grid, out: Seq<Spot>)
    requires
        g.wf(),
        forall|i: int| 0 <= i < out.len() ==> (#[trigger] out[i] matches Spot::Slot(k) ==> 0 <= k < g.spec_capacity()),
        forall|i: int, j: int|
            0 <= i < j < out.len() ==> (#[trigger] out[i] matches Spot::Slot(a) ==> (#[trigger] out[j]
                matches Spot::Slot(b) ==> a != b)),
        forall|i: int| 0 <= i < out.len() ==> (#[trigger] out[i] matches Spot::Free(p) ==> g.spec_clamp_point(p) == p),
    ensures
        first_pass(g, out.map_values(|s: Spot| Some(s))).0 == out.map_values(|s: Spot| Some(s)),
    decreases out.len(),
{
    let r = out.map_values(|s: Spot| Some(s));
    lemma_first_pass(g, r);
    if out.len() > 0 {
        let d = out.drop_last();
        let n = out.len() - 1;
        assert forall|i: int| 0 <= i < d.len() implies (#[trigger] d[i] matches Spot::Slot(k) ==> 0
            <= k < g.spec_capacity()) by {
            assert(d[i] == out[i]);
        }
        assert forall|i: int, j: int| 0 <= i < j < d.len() implies (#[trigger] d[i] matches Spot::Slot(
            a,
        ) ==> (#[trigger] d[j] matches Spot::Slot(b) ==> a != b)) by {
            assert(d[i] == out[i] && d[j] == out[j]);
        }
        assert forall|i: int| 0 <= i < d.len() implies (#[trigger] d[i] matches Spot::Free(p)
            ==> g.spec_clamp_point(p) == p) by {
            assert(d[i] == out[i]);
        }
        lemma_first_pass_fixed(g, d);
        let rd = d.map_values(|s: Spot| Some(s));
        assert(r.drop_last() =~= rd);
        lemma_first_pass_claims(g, rd);
        let prev = first_pass(g, rd);
        match out[n] {
            Spot::Slot(k) => {
                if prev.1.contains(k as int) {
                    let j = choose|j: int| 0 <= j < rd.len() && claims(rd[j], k as int);
                    assert(rd[j] == Some(d[j]));
                    assert(d[j] == out[j]);
                    assert(out[j] matches Spot::Slot(a) && a == k);
                }
            },
            Spot::Free(p) => {},
        }
        assert(first_pass(g, r).0 =~= r);
    } else {
        assert(first_pass(g, r).0 =~= r);
    }
}

/// Laying out again with what a layout handed back as the remembered spots gives the same
/// layout: every icon is already where it belongs, so a file that comes back returns to its
/// cell and a redraw moves nothing.
pub proof fn law_arrange_is_stable(g: Grid, remembered: Seq<Option<Spot>>)
    requires
        g.wf(),
        remembered.len() <= g.spec_capacity(),
        remembered.len() <= 0x3fff_ffff,
    ensures
        spec_arrange(g, spec_arrange(g, remembered).map_values(|s: Spot| Some(s))) == spec_arrange(
            g,
            remembered,
        ),
{
    let out = spec_arrange(g, remembered);
    let fp = first_pass(g, remembered);
    lemma_first_pass(g, remembered);
    lemma_fill(fp.0, fp.1);
    assert forall|i: int| 0 <= i < out.len() implies (#[trigger] out[i] matches Spot::Slot(k) ==> k
        < g.spec_capacity()) by {
        law_arrange_in_capacity(g, remembered, i);
    }
    assert forall|i: int, j: int| 0 <= i < j < out.len() implies (#[trigger] out[i] matches Spot::Slot(
        a,
    ) ==> (#[trigger] out[j] matches Spot::Slot(b) ==> a != b)) by {
        law_arrange_distinct_slots(g, remembered, i, j);
    }
    assert forall|i: int| 0 <= i < out.len() implies (#[trigger] out[i] matches Spot::Free(p)
        ==> g.spec_clamp_point(p) == p) by {
        match fp.0[i] {
            Some(s) => {
                assert(out[i] == s);
                match s {
                    Spot::Free(p) => {
                        let q = choose|q: Point| remembered[i] == Some(Spot::Free(q)) && p == g.spec_clamp_point(q);
                        lemma_clamp_idempotent(g, q);
                    },
                    _ => {},
                }
            },
            None => {},
        }
    }
    lemma_first_pass_fixed(g, out);
    let r = out.map_values(|s: Spot| Some(s));
    let fp2 = first_pass(g, r);
    lemma_first_pass(g, r);
    lemma_first_pass_range(g, r);
    assert(fp2.1.len() <= r.len());
    lemma_fill(fp2.0, fp2.1);
    assert(spec_arrange(g, r) =~= out) by {
        assert forall|i: int| 0 <= i < out.len() implies spec_arrange(g, r)[i] == out[i] by {
            assert(fp2.0[i] == Some(out[i]));
        }
    }
}

/// A layout places every entry it is given.
pub proof fn lemma_arrange_len(g: Grid, remembered: Seq<Option<Spot>>)
    requires
        remembered.len() <= 0x3fff_ffff,
    ensures
        spec_arrange(g, remembered).len() == remembered.len(),
{
    let fp = first_pass(g, remembered);
    lemma_first_pass(g, remembered);
    lemma_fill(fp.0, fp.1);
}

} // verus!
