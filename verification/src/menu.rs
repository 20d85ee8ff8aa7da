//! The desktop menu: the 4Dwm menu posted by right-clicking the desktop.
//!
//! This module owns the contents, the layout and the hit-testing; drawing and the pointer
//! wiring are the program's. It has a **header**: a centred "Desktop" title with a groove
//! under it, as IRIX's did.
//!
//! Which items can be chosen depends on the selection, and the enabled flags are worked out
//! once, when the menu is posted. What is drawn and what a click does therefore cannot
//! disagree.

use vstd::prelude::*;

use crate::layout::{Point, Rect};

verus! {

/// Height of an ordinary item row.
pub const ITEM_H: i32 = 22;

/// Height of a separator row.
pub const SEPARATOR_H: i32 = 7;

/// Height of the title row at the top.
pub const HEADER_H: i32 = 24;

/// Panel width. Fixed rather than measured from the labels, so hit-testing needs no font
/// metrics -- and wide enough for the longest label, "Change Permissions".
pub const WIDTH: i32 = 186;

/// Margin between the panel edge and the rows.
pub const MARGIN: i32 = 3;

/// Left inset of an item's label.
pub const LABEL_INSET: i32 = 14;

/// Bevel thickness of the panel and of a highlighted row.
pub const BEVEL: i32 = 2;

/// The most rows a menu can have: far more than any menu needs, and few enough that the
/// heights add up inside an `i32`.
pub const MAX_ROWS: usize = 1000;

/// What choosing an item does.
#[derive(Debug, Clone, Copy, PartialEq, Eq, Structural)]
pub enum Action {
    /// End the session and return to the greeter.
    LogOut,
    /// Open every selected item, as a double-click would.
    Open,
    /// Duplicate the selection. Not implemented yet, so always disabled.
    MakeCopy,
    /// Make a symlink to the selection. Not implemented yet, so always disabled.
    MakeReference,
    /// Move the selection to the trash.
    Remove,
    /// Edit the selection's permissions. Not implemented yet, so always disabled.
    ChangePermissions,
    /// Create a directory on the desktop. Not implemented yet, so always disabled.
    AddNewDirectory,
    /// Select every icon.
    SelectAll,
}

/// What a row is.
#[derive(Debug, Clone, Copy, PartialEq, Eq, Structural)]
pub enum RowKind {
    /// The title at the top. Not choosable.
    Header,
    /// An etched groove between groups. Not choosable.
    Separator,
    /// Something that can be chosen, if enabled.
    Item(Action),
}

/// One row of the menu.
#[derive(Debug, Clone, PartialEq, Eq)]
pub struct Entry {
    kind: RowKind,
    pub label: &'static str,
    pub enabled: bool,
    height: i32,
}

/// The mathematical content of a row.
pub struct RowView {
    pub kind: RowKind,
    pub label: Seq<char>,
    pub enabled: bool,
    pub height: int,
}

impl View for Entry {
    type V = RowView;

    closed spec fn view(&self) -> RowView {
        RowView {
            kind: self.kind,
            label: self.label@,
            enabled: self.enabled,
            height: self.height as int,
        }
    }
}

/// The title row.
pub open spec fn header_row(label: Seq<char>) -> RowView {
    RowView { kind: RowKind::Header, label, enabled: false, height: HEADER_H as int }
}

/// A groove between groups of items.
pub open spec fn separator_row() -> RowView {
    RowView { kind: RowKind::Separator, label: ""@, enabled: false, height: SEPARATOR_H as int }
}

/// An item.
pub open spec fn item_row(action: Action, label: Seq<char>, enabled: bool) -> RowView {
    RowView { kind: RowKind::Item(action), label, enabled, height: ITEM_H as int }
}

/// The desktop menu's rows, in the order IRIX had them. Open and Remove act on the
/// selection, so they are enabled only when there is one; the items not implemented yet are
/// always disabled.
pub open spec fn standard_rows(has_selection: bool) -> Seq<RowView> {
    seq![
        header_row("Desktop"@),
        item_row(Action::LogOut, "Log Out"@, true),
        separator_row(),
        item_row(Action::Open, "Open"@, has_selection),
        item_row(Action::MakeCopy, "Make Copy"@, false),
        item_row(Action::MakeReference, "Make Reference"@, false),
        item_row(Action::Remove, "Remove"@, has_selection),
        separator_row(),
        item_row(Action::ChangePermissions, "Change Permissions"@, false),
        item_row(Action::AddNewDirectory, "Add New Directory"@, false),
        item_row(Action::SelectAll, "Select All"@, true),
    ]
}

impl Entry {
    fn header(label: &'static str) -> (r: Self)
        ensures
            r@ == header_row(label@),
    {
        Self { kind: RowKind::Header, label, enabled: false, height: HEADER_H }
    }

    fn separator() -> (r: Self)
        ensures
            r@ == separator_row(),
    {
        Self { kind: RowKind::Separator, label: "", enabled: false, height: SEPARATOR_H }
    }

    fn item(action: Action, label: &'static str, enabled: bool) -> (r: Self)
        ensures
            r@ == item_row(action, label@, enabled),
    {
        Self { kind: RowKind::Item(action), label, enabled, height: ITEM_H }
    }

    /// Whether this row is the title, drawn centred with a groove beneath it.
    pub fn is_header(&self) -> (r: bool)
        ensures
            r == (self@.kind == RowKind::Header),
    {
        self.kind == RowKind::Header
    }

    /// Whether this row is a groove rather than something to choose.
    pub fn is_separator(&self) -> (r: bool)
        ensures
            r == (self@.kind == RowKind::Separator),
    {
        self.kind == RowKind::Separator
    }

    /// The row's text. The same as its public `label` field, which Verus cannot see past the
    /// row's private ones.
    pub fn text(&self) -> (r: &'static str)
        ensures
            r@ == self@.label,
    {
        self.label
    }

    /// Whether the row can be chosen: the public `enabled` field, as the view has it.
    pub fn is_enabled(&self) -> (r: bool)
        ensures
            r == self@.enabled,
    {
        self.enabled
    }

    /// The action this row would take, if it is an item.
    pub fn action(&self) -> (r: Option<Action>)
        ensures
            r == row_action(self@),
    {
        match self.kind {
            RowKind::Item(action) => Some(action),
            _ => None,
        }
    }
}

/// The action of an item row.
pub open spec fn row_action(row: RowView) -> Option<Action> {
    match row.kind {
        RowKind::Item(action) => Some(action),
        _ => None,
    }
}

/// A posted desktop menu.
#[derive(Debug, Clone, PartialEq)]
pub struct Menu {
    /// The panel's top-left, already clamped onto the surface.
    origin: Point,
    pub entries: Vec<Entry>,
    /// The row the pointer is over, if it is over a choosable one.
    pub hovered: Option<usize>,
}

/// The mathematical content of a [`Menu`].
pub struct MenuView {
    pub origin: Point,
    pub rows: Seq<RowView>,
    pub hovered: Option<usize>,
}

impl View for Menu {
    type V = MenuView;

    closed spec fn view(&self) -> MenuView {
        MenuView {
            origin: self.origin,
            rows: self.entries@.map_values(|e: Entry| e@),
            hovered: self.hovered,
        }
    }
}

/// The heights of `rows`, added up.
pub open spec fn heights(rows: Seq<RowView>) -> int
    decreases rows.len(),
{
    if rows.len() == 0 {
        0
    } else {
        heights(rows.drop_last()) + rows.last().height
    }
}

/// The panel rectangle for `rows` placed at `origin`, bevel included.
pub open spec fn panel_rect(rows: Seq<RowView>, origin: Point) -> Rect {
    Rect { x: origin.x, y: origin.y, w: WIDTH, h: (heights(rows) + 2 * MARGIN) as i32 }
}

/// The rectangle of row `index`, inset from the panel edges by the margin; a row that is not
/// there has no height.
pub open spec fn row_rect(rows: Seq<RowView>, origin: Point, index: int) -> Rect {
    Rect {
        x: (origin.x + MARGIN) as i32,
        y: (origin.y + MARGIN + heights(rows.take(if index <= rows.len() {
            index
        } else {
            rows.len() as int
        }))) as i32,
        w: (WIDTH - 2 * MARGIN) as i32,
        h: if 0 <= index < rows.len() {
            rows[index].height as i32
        } else {
            0
        },
    }
}

/// The first row from `i` on whose rectangle holds `point`.
pub open spec fn row_from(rows: Seq<RowView>, origin: Point, point: Point, i: int) -> Option<int>
    decreases rows.len() - i,
{
    if i < 0 || i >= rows.len() {
        None
    } else if row_rect(rows, origin, i).spec_contains(point) {
        Some(i)
    } else {
        row_from(rows, origin, point, i + 1)
    }
}

impl MenuView {
    /// Few enough rows of sane heights, at a position the surface can have.
    pub open spec fn wf(self) -> bool {
        &&& self.rows.len() <= MAX_ROWS
        &&& forall|i: int| 0 <= i < self.rows.len() ==> 0 <= #[trigger] self.rows[i].height <= HEADER_H
        &&& crate::select::point_ok(self.origin)
    }

    /// The panel rectangle, bevel included.
    pub open spec fn panel(self) -> Rect {
        panel_rect(self.rows, self.origin)
    }

    /// The row under `point`, whether or not it can be chosen; `None` off the panel.
    pub open spec fn row_at(self, point: Point) -> Option<int> {
        if !self.panel().spec_contains(point) {
            None
        } else {
            row_from(self.rows, self.origin, point, 0)
        }
    }

    /// The action a click at `point` chooses: that of a row that is an enabled item.
    pub open spec fn action_at(self, point: Point) -> Option<Action> {
        match self.row_at(point) {
            Some(i) => if self.rows[i].enabled {
                row_action(self.rows[i])
            } else {
                None
            },
            None => None,
        }
    }

    /// The row to highlight for `point`: the one under it, if it is enabled.
    pub open spec fn hover_row(self, point: Point) -> Option<usize> {
        match self.row_at(point) {
            Some(i) => if self.rows[i].enabled {
                Some(i as usize)
            } else {
                None
            },
            None => None,
        }
    }
}

/// The heights of `rows` stay inside `[0, HEADER_H * rows.len()]`.
proof fn lemma_heights_bounded(rows: Seq<RowView>)
    requires
        forall|i: int| 0 <= i < rows.len() ==> 0 <= #[trigger] rows[i].height <= HEADER_H,
    ensures
        0 <= heights(rows) <= HEADER_H * rows.len(),
    decreases rows.len(),
{
    if rows.len() > 0 {
        let prefix = rows.drop_last();
        assert forall|i: int| 0 <= i < prefix.len() implies 0 <= #[trigger] prefix[i].height
            <= HEADER_H by {
            assert(prefix[i] == rows[i]);
        }
        lemma_heights_bounded(prefix);
    }
}

/// The top of each row is the sum of the heights above it.
proof fn lemma_heights_take(rows: Seq<RowView>, i: int)
    requires
        0 <= i < rows.len(),
    ensures
        heights(rows.take(i + 1)) == heights(rows.take(i)) + rows[i].height,
{
    assert(rows.take(i + 1).drop_last() =~= rows.take(i));
}

impl Menu {
    /// Build the menu, with each item enabled according to what is selected.
    ///
    /// `selected` is how many icons are picked: Open and Remove act on the selection, so with
    /// nothing selected there is nothing for them to do.
    pub fn new(origin: Point, selected: usize) -> (r: Self)
        requires
            crate::select::point_ok(origin),
        ensures
            r@.origin == origin,
            r@.rows == standard_rows(selected > 0),
            r@.hovered is None,
            r@.wf(),
    {
        let has_selection = selected > 0;
        let entries = vec![
            Entry::header("Desktop"),
            Entry::item(Action::LogOut, "Log Out", true),
            Entry::separator(),
            Entry::item(Action::Open, "Open", has_selection),
            Entry::item(Action::MakeCopy, "Make Copy", false),
            Entry::item(Action::MakeReference, "Make Reference", false),
            Entry::item(Action::Remove, "Remove", has_selection),
            Entry::separator(),
            Entry::item(Action::ChangePermissions, "Change Permissions", false),
            Entry::item(Action::AddNewDirectory, "Add New Directory", false),
            Entry::item(Action::SelectAll, "Select All", true),
        ];
        let r = Self { origin, entries, hovered: None };
        assert(r@.rows =~= standard_rows(has_selection));
        r
    }

    /// The total height of the rows.
    fn rows_height(&self) -> (r: i32)
        requires
            self@.wf(),
        ensures
            r == heights(self@.rows),
            0 <= r <= HEADER_H * MAX_ROWS,
    {
        let r = self.height_above(self.entries.len());
        assert(self@.rows.take(self.entries.len() as int) =~= self@.rows);
        r
    }

    /// The height of the rows above row `index`.
    fn height_above(&self, index: usize) -> (r: i32)
        requires
            self@.wf(),
            index <= self.entries.len(),
        ensures
            r == heights(self@.rows.take(index as int)),
            0 <= r <= HEADER_H * MAX_ROWS,
    {
        let ghost rows = self@.rows;
        let mut sum: i32 = 0;
        let mut i: usize = 0;
        assert(rows.take(0) =~= Seq::<RowView>::empty());
        while i < index
            invariant
                rows == self@.rows,
                self@.wf(),
                i <= index <= self.entries.len(),
                sum == heights(rows.take(i as int)),
                0 <= sum <= HEADER_H * i,
            decreases index - i,
        {
            proof {
                lemma_heights_take(rows, i as int);
                assert(rows[i as int] == self.entries@[i as int]@);
            }
            sum = sum + self.entries[i].height;
            i = i + 1;
        }
        proof {
            if index == self.entries.len() {
                assert(rows.take(index as int) =~= rows);
            }
        }
        sum
    }

    /// Row `index` of the public `entries`, as the view has it: a verified caller reaches the
    /// rows through here, since Verus cannot see the public fields past the private origin.
    pub fn entry(&self, index: usize) -> (r: &Entry)
        requires
            index < self@.rows.len(),
        ensures
            r@ == self@.rows[index as int],
    {
        &self.entries[index]
    }

    /// The highlighted row: the public `hovered` field, as the view has it.
    pub fn highlighted(&self) -> (r: Option<usize>)
        ensures
            r == self@.hovered,
    {
        self.hovered
    }

    /// The panel rectangle, bevel included.
    pub fn panel(&self) -> (r: Rect)
        requires
            self@.wf(),
        ensures
            r == self@.panel(),
    {
        let height = self.rows_height();
        proof {
            assert(self@.rows.take(self@.rows.len() as int) =~= self@.rows);
        }
        Rect::new(self.origin.x, self.origin.y, WIDTH, height + 2 * MARGIN)
    }

    /// The rectangle of row `index`, inset from the panel edges.
    pub fn row(&self, index: usize) -> (r: Rect)
        requires
            self@.wf(),
        ensures
            r == row_rect(self@.rows, self@.origin, index as int),
    {
        let upto = if index <= self.entries.len() {
            index
        } else {
            self.entries.len()
        };
        let top = self.height_above(upto);
        let height = if index < self.entries.len() {
            proof {
                assert(self@.rows[index as int] == self.entries@[index as int]@);
            }
            self.entries[index].height
        } else {
            0
        };
        Rect::new(self.origin.x + MARGIN, self.origin.y + MARGIN + top, WIDTH - 2 * MARGIN, height)
    }

    /// The row under `point`, whether or not it can be chosen. `None` outside the panel.
    fn row_at(&self, point: Point) -> (r: Option<usize>)
        requires
            self@.wf(),
        ensures
            match r {
                Some(i) => i < self.entries.len() && self@.row_at(point) == Some(i as int),
                None => self@.row_at(point) is None,
            },
    {
        if !self.panel().contains(point) {
            return None;
        }
        let mut i: usize = 0;
        while i < self.entries.len()
            invariant
                self@.wf(),
                i <= self.entries.len(),
                self@.rows.len() == self.entries.len(),
                self@.panel().spec_contains(point),
                row_from(self@.rows, self@.origin, point, i as int) == row_from(
                    self@.rows,
                    self@.origin,
                    point,
                    0,
                ),
            decreases self.entries.len() - i,
        {
            if self.row(i).contains(point) {
                return Some(i);
            }
            i = i + 1;
        }
        None
    }

    /// The action `point` would choose: a row that is both an item and enabled.
    pub fn action_at(&self, point: Point) -> (r: Option<Action>)
        requires
            self@.wf(),
        ensures
            r == self@.action_at(point),
    {
        match self.row_at(point) {
            Some(i) => {
                proof {
                    assert(self@.rows[i as int] == self.entries@[i as int]@);
                }
                if self.entries[i].enabled {
                    self.entries[i].action()
                } else {
                    None
                }
            },
            None => None,
        }
    }

    /// Whether `point` is anywhere on the panel, so a press there belongs to the menu.
    pub fn contains(&self, point: Point) -> (r: bool)
        requires
            self@.wf(),
        ensures
            r == self@.panel().spec_contains(point),
    {
        self.panel().contains(point)
    }

    /// Track the pointer, highlighting the row it is over if that row can be chosen. Returns
    /// whether the highlight moved, so the caller can avoid redrawing for nothing.
    pub fn hover(&mut self, point: Point) -> (r: bool)
        requires
            old(self)@.wf(),
        ensures
            final(self)@ == (MenuView { hovered: old(self)@.hover_row(point), ..old(self)@ }),
            r == (old(self)@.hover_row(point) != old(self)@.hovered),
    {
        let hovered = match self.row_at(point) {
            Some(i) => {
                proof {
                    assert(self@.rows[i as int] == self.entries@[i as int]@);
                }
                if self.entries[i].enabled {
                    Some(i)
                } else {
                    None
                }
            },
            None => None,
        };
        let changed = hovered != self.hovered;
        self.hovered = hovered;
        changed
    }

    /// Place a menu so it fits inside `area`, preferring `at` as its top-left.
    ///
    /// A menu posted near the bottom-right corner would otherwise run off the surface, and the
    /// rows past the edge could never be reached. One bigger than the area starts at the
    /// area's corner, so its header and first rows stay reachable.
    pub fn clamp(at: Point, panel: Rect, area: Rect) -> (r: Point)
        ensures
            r.x == clamp_start(at.x as int, panel.w as int, area.x as int, area.w as int),
            r.y == clamp_start(at.y as int, panel.h as int, area.y as int, area.h as int),
            r.x >= area.x,
            r.y >= area.y,
            panel.w <= area.w ==> r.x + panel.w <= area.x + area.w,
            panel.h <= area.h ==> r.y + panel.h <= area.y + area.h,
            area.x <= at.x && at.x + panel.w <= area.x + area.w ==> r.x == at.x,
            area.y <= at.y && at.y + panel.h <= area.y + area.h ==> r.y == at.y,
    {
        let x = clamp_axis(at.x, panel.w, area.x, area.w);
        let y = clamp_axis(at.y, panel.h, area.y, area.h);
        Point::new(x, y)
    }

    /// The panel size this menu would have, for placing it before it is built.
    pub fn size_for(selected: usize) -> (r: Rect)
        ensures
            r == panel_rect(standard_rows(selected > 0), Point { x: 0, y: 0 }),
    {
        let menu = Menu::new(Point::new(0, 0), selected);
        menu.panel()
    }
}

/// Where a span of length `len` preferring to start at `at` starts inside `[lo, lo + size]`:
/// no further on than leaves it inside, and never before `lo`.
pub open spec fn clamp_start(at: int, len: int, lo: int, size: int) -> int {
    let pulled = if at <= lo + size - len {
        at
    } else {
        lo + size - len
    };
    if pulled >= lo {
        pulled
    } else {
        lo
    }
}

fn clamp_axis(at: i32, len: i32, lo: i32, size: i32) -> (r: i32)
    ensures
        r == clamp_start(at as int, len as int, lo as int, size as int),
{
    let far = lo as i64 + size as i64 - len as i64;
    let pulled = if (at as i64) <= far {
        at as i64
    } else {
        far
    };
    if pulled >= lo as i64 {
        pulled as i32
    } else {
        lo
    }
}

/// Rows stack in order inside the panel: each starts where the one above ends, all of them
/// are inset from the panel's sides, and the last ends inside its bottom.
pub proof fn law_rows_stack_inside_panel(menu: MenuView, index: int)
    requires
        menu.wf(),
        0 <= index < menu.rows.len(),
    ensures
        ({
            let row = row_rect(menu.rows, menu.origin, index);
            let panel = menu.panel();
            &&& index == 0 ==> row.y == panel.y + MARGIN
            &&& index + 1 < menu.rows.len() ==> row.y + row.h == row_rect(
                menu.rows,
                menu.origin,
                index + 1,
            ).y
            &&& row.x > panel.x
            &&& row.x + row.w < panel.x + panel.w
            &&& row.y + row.h <= panel.y + panel.h
        }),
{
    let rows = menu.rows;
    lemma_heights_take(rows, index);
    assert(rows.take(0) =~= Seq::<RowView>::empty());
    // The rows below this one add a non-negative amount.
    let rest = rows.skip(index + 1);
    assert forall|i: int| 0 <= i < rest.len() implies 0 <= #[trigger] rest[i].height <= HEADER_H by {
        assert(rest[i] == rows[index + 1 + i]);
    }
    lemma_heights_split(rows, index + 1);
    lemma_heights_bounded(rest);
    let before = rows.take(index + 1);
    assert forall|i: int| 0 <= i < before.len() implies 0 <= #[trigger] before[i].height <= HEADER_H by {
        assert(before[i] == rows[i]);
    }
    lemma_heights_bounded(before);
    lemma_heights_bounded(rows);
    let before_i = rows.take(index);
    assert forall|i: int| 0 <= i < before_i.len() implies 0 <= #[trigger] before_i[i].height <= HEADER_H by {
        assert(before_i[i] == rows[i]);
    }
    lemma_heights_bounded(before_i);
}

/// The heights of a sequence are those of its two parts, added up.
proof fn lemma_heights_split(rows: Seq<RowView>, k: int)
    requires
        0 <= k <= rows.len(),
    ensures
        heights(rows) == heights(rows.take(k)) + heights(rows.skip(k)),
    decreases rows.len() - k,
{
    if k < rows.len() {
        lemma_heights_split(rows, k + 1);
        lemma_heights_take(rows, k);
        let a = rows.skip(k);
        let b = rows.skip(k + 1);
        lemma_heights_first(a);
        assert(a.drop_first() =~= b);
    } else {
        assert(rows.take(k) =~= rows);
        assert(rows.skip(k) =~= Seq::<RowView>::empty());
    }
}

/// The heights of a sequence are its first row's and the rest's.
proof fn lemma_heights_first(rows: Seq<RowView>)
    requires
        rows.len() > 0,
    ensures
        heights(rows) == rows[0].height + heights(rows.drop_first()),
    decreases rows.len(),
{
    if rows.len() > 1 {
        lemma_heights_first(rows.drop_last());
        assert(rows.drop_last().drop_first() =~= rows.drop_first().drop_last());
    } else {
        assert(rows.drop_first() =~= Seq::<RowView>::empty());
        assert(rows.drop_last() =~= Seq::<RowView>::empty());
    }
}

/// The rows above a later row are at least as tall as those above an earlier one.
proof fn lemma_heights_grow(rows: Seq<RowView>, a: int, b: int)
    requires
        0 <= a <= b <= rows.len(),
        forall|i: int| 0 <= i < rows.len() ==> 0 <= #[trigger] rows[i].height <= HEADER_H,
    ensures
        heights(rows.take(a)) <= heights(rows.take(b)),
    decreases b - a,
{
    if a < b {
        lemma_heights_grow(rows, a, b - 1);
        lemma_heights_take(rows, b - 1);
    }
}

/// The rows above row `i` are no taller than the whole menu.
proof fn lemma_heights_above(rows: Seq<RowView>, i: int)
    requires
        0 <= i <= rows.len(),
        forall|k: int| 0 <= k < rows.len() ==> 0 <= #[trigger] rows[k].height <= HEADER_H,
    ensures
        0 <= heights(rows.take(i)) <= HEADER_H * rows.len(),
{
    let t = rows.take(i);
    assert forall|k: int| 0 <= k < t.len() implies 0 <= #[trigger] t[k].height <= HEADER_H by {
        assert(t[k] == rows[k]);
    }
    lemma_heights_bounded(t);
    assert(HEADER_H * t.len() <= HEADER_H * rows.len()) by (nonlinear_arith)
        requires
            t.len() <= rows.len(),
    ;
}

impl MenuView {
    /// Row `i`'s rectangle with its corner as plain integers: nothing in it was cut to `i32`.
    pub open spec fn row_top(self, i: int) -> int {
        self.origin.y + MARGIN + heights(self.rows.take(i))
    }
}

/// Row rectangles are what they say: their tops are the sums of the heights above them.
proof fn lemma_row_rect(m: MenuView, i: int)
    requires
        m.wf(),
        0 <= i < m.rows.len(),
    ensures
        row_rect(m.rows, m.origin, i).y == m.row_top(i),
        row_rect(m.rows, m.origin, i).x == m.origin.x + MARGIN,
        row_rect(m.rows, m.origin, i).h == m.rows[i].height,
{
    lemma_heights_above(m.rows, i);
}

/// No point lies in two rows: each starts where the one above it ends.
proof fn lemma_rows_apart(m: MenuView, j: int, i: int, point: Point)
    requires
        m.wf(),
        0 <= j < i < m.rows.len(),
        row_rect(m.rows, m.origin, j).spec_contains(point),
    ensures
        !row_rect(m.rows, m.origin, i).spec_contains(point),
{
    lemma_row_rect(m, i);
    lemma_row_rect(m, j);
    lemma_heights_take(m.rows, j);
    lemma_heights_grow(m.rows, j + 1, i);
}

/// The search from row `i0` finds the first row at or after it that holds the point.
proof fn lemma_row_from(m: MenuView, point: Point, i0: int)
    requires
        m.wf(),
        0 <= i0,
    ensures
        match row_from(m.rows, m.origin, point, i0) {
            Some(i) => i0 <= i < m.rows.len() && row_rect(m.rows, m.origin, i).spec_contains(point),
            None => forall|j: int|
                i0 <= j < m.rows.len() ==> !#[trigger] row_rect(m.rows, m.origin, j).spec_contains(
                    point,
                ),
        },
    decreases m.rows.len() - i0,
{
    if i0 < m.rows.len() && !row_rect(m.rows, m.origin, i0).spec_contains(point) {
        lemma_row_from(m, point, i0 + 1);
    }
}

/// The row under a point on the panel is the one row whose rectangle holds it.
proof fn lemma_row_at(m: MenuView, point: Point, i: int)
    requires
        m.wf(),
        0 <= i < m.rows.len(),
    ensures
        m.row_at(point) == Some(i) <==> m.panel().spec_contains(point) && row_rect(
            m.rows,
            m.origin,
            i,
        ).spec_contains(point),
{
    lemma_row_from(m, point, 0);
    match row_from(m.rows, m.origin, point, 0) {
        Some(k) => {
            if k < i {
                lemma_rows_apart(m, k, i, point);
            } else if i < k && row_rect(m.rows, m.origin, i).spec_contains(point) {
                lemma_rows_apart(m, i, k, point);
            }
        },
        None => {},
    }
}

/// A click chooses an action exactly when it lands on the panel, in a row that is an enabled
/// item of that action: off the panel, in its margin, on the header, on a separator or on a
/// disabled row it chooses nothing.
pub proof fn law_action_at_is_an_enabled_item(m: MenuView, point: Point, action: Action)
    requires
        m.wf(),
    ensures
        m.action_at(point) == Some(action) <==> m.panel().spec_contains(point) && exists|i: int|
            0 <= i < m.rows.len() && #[trigger] row_rect(m.rows, m.origin, i).spec_contains(point)
                && m.rows[i].enabled && row_action(m.rows[i]) == Some(action),
{
    lemma_row_from(m, point, 0);
    if m.panel().spec_contains(point) {
        match row_from(m.rows, m.origin, point, 0) {
            Some(k) => {
                lemma_row_at(m, point, k);
                if exists|i: int|
                    0 <= i < m.rows.len() && #[trigger] row_rect(m.rows, m.origin, i).spec_contains(
                        point,
                    ) && m.rows[i].enabled && row_action(m.rows[i]) == Some(action) {
                    let i = choose|i: int|
                        0 <= i < m.rows.len() && #[trigger] row_rect(m.rows, m.origin, i).spec_contains(
                            point,
                        ) && m.rows[i].enabled && row_action(m.rows[i]) == Some(action);
                    lemma_row_at(m, point, i);
                }
            },
            None => {},
        }
    }
}

/// Only a row that can be chosen lights up: the highlight for a point is row `i` exactly when
/// the point is on the panel, in row `i`, and that row is enabled -- never the header, a
/// separator or a disabled row.
pub proof fn law_hover_row_is_an_enabled_row(m: MenuView, point: Point, i: int)
    requires
        m.wf(),
        0 <= i < m.rows.len(),
    ensures
        m.hover_row(point) == Some(i as usize) <==> m.panel().spec_contains(point) && row_rect(
            m.rows,
            m.origin,
            i,
        ).spec_contains(point) && m.rows[i].enabled,
{
    lemma_row_at(m, point, i);
    lemma_row_from(m, point, 0);
    if m.panel().spec_contains(point) {
        match row_from(m.rows, m.origin, point, 0) {
            Some(k) => {
                assert(k as usize == i as usize ==> k == i);
            },
            None => {},
        }
    }
}

} // verus!
