//! What the desktop's drawing decides before it draws.
//!
//! An application launcher stands on a **magic carpet** saying whether the application is
//! running -- flat when it is not, upright when it is -- with the application's own symbol on
//! top. Only `Type=Application` entries get one: a file, a folder or a `Type=Link` bookmark
//! has no running state to show. Every icon takes a tint from the pointer: plain, hovered or
//! picked.

use vstd::prelude::*;

use crate::canvas::Rect;
use crate::entries::{Entry, EntryView};
use crate::layout::{Placed, COORD_LIMIT};
use crate::running::Running;
use crate::select::{point_ok, rect_ok, Selection, SelectionView};

verus! {

/// Which state an icon is in, and so what colour it takes.
#[derive(Debug, Clone, Copy, PartialEq, Eq, Structural)]
pub enum Tint {
    /// At rest.
    Normal,
    /// The pointer is over it.
    Hover,
    /// Picked.
    Selected,
}

/// The tint an icon named `name` takes. Selection wins over hover: a selected icon under the
/// pointer stays selected-looking rather than flicking as the pointer crosses it.
pub open spec fn tint_of(s: SelectionView, name: Seq<char>) -> Tint {
    if s.selected.contains(name) {
        Tint::Selected
    } else if s.hovered == Some(name) {
        Tint::Hover
    } else {
        Tint::Normal
    }
}

/// Whether some open window matches one of `identities`.
pub open spec fn any_window(windows: Map<u32, Seq<char>>, identities: Seq<Seq<char>>) -> bool {
    exists|id: u32| #![trigger windows[id]] windows.contains_key(id) && identities.contains(windows[id])
}

/// Whether an entry is an application launcher with a window open.
pub open spec fn running_of(e: EntryView, windows: Map<u32, Seq<char>>) -> bool {
    match e.launcher {
        Some(l) => l.is_application && any_window(windows, l.identities),
        None => false,
    }
}

/// Which tint an icon takes.
pub fn tint_for(selection: &Selection, name: &str) -> (r: Tint)
    ensures
        r == tint_of(selection@, name@),
{
    if selection.is_selected(name) {
        Tint::Selected
    } else {
        match selection.hovered() {
            Some(h) => if crate::strings::same(h, name) {
                Tint::Hover
            } else {
                Tint::Normal
            },
            None => Tint::Normal,
        }
    }
}

/// Whether an application launcher is running, and so which carpet it stands on.
///
/// Only `Type=Application` entries can be: a `Link` bookmark or an unreadable desktop file has
/// no process behind it.
pub fn is_running(entry: &Entry, running: &Running) -> (r: bool)
    ensures
        r == running_of(entry@, running@),
{
    match &entry.launcher {
        Some(launcher) => {
            if !launcher.is_application {
                return false;
            }
            let r = running.any(launcher.identities.as_slice());
            assert(launcher.identities@.map_values(|s: String| s@) =~= launcher.identities.deep_view());
            r
        },
        None => false,
    }
}

/// The image cache key for a carpet. Not a real path -- the artwork is the program's own --
/// but these two names cannot collide with a file on disk.
pub fn carpet_key(running: bool) -> (r: &'static str)
    ensures
        r@ == if running {
            "<wlrix:carpet-open>"@
        } else {
            "<wlrix:carpet-closed>"@
        },
{
    if running {
        "<wlrix:carpet-open>"
    } else {
        "<wlrix:carpet-closed>"
    }
}

/// Gap between the icon square and the first line of its label.
pub const LABEL_GAP: i32 = 4;

/// Where an icon is drawn: a dragged one under the pointer, moved by the drag so far, so it
/// follows the hand instead of jumping on release; anything else in its own cell.
pub open spec fn drawn_cell(item: Placed, s: SelectionView) -> Rect {
    let r = item.rect;
    match s.drag {
        Some(d) => if d.moved && d.names.contains(item.entry.name@) {
            Rect {
                x: (r.x + (d.current.x - d.press.x)) as i32,
                y: (r.y + (d.current.y - d.press.y)) as i32,
                w: r.w,
                h: r.h,
            }
        } else {
            Rect { x: r.x, y: r.y, w: r.w, h: r.h }
        },
        None => Rect { x: r.x, y: r.y, w: r.w, h: r.h },
    }
}

/// The cell an icon is drawn in this frame.
pub fn cell_for(item: &Placed, selection: &Selection) -> (r: Rect)
    requires
        selection@.wf(),
        rect_ok(item.rect),
    ensures
        r == drawn_cell(*item, selection@),
{
    let rect = item.rect;
    if selection.is_dragging(item.entry.name.as_str()) {
        match selection.drag_delta() {
            Some(delta) => {
                return Rect::new(rect.x + delta.x, rect.y + delta.y, rect.w, rect.h);
            },
            None => {},
        }
    }
    Rect::new(rect.x, rect.y, rect.w, rect.h)
}

/// A cell whose sides can be added up inside an `i32`.
pub open spec fn cell_ok(cell: Rect) -> bool {
    &&& -3 * COORD_LIMIT <= cell.x <= 3 * COORD_LIMIT
    &&& -3 * COORD_LIMIT <= cell.y <= 3 * COORD_LIMIT
    &&& 0 <= cell.w <= COORD_LIMIT
    &&& 0 <= cell.h <= COORD_LIMIT
}

/// The side of the icon square: the configured size, shrunk to fit the cell.
pub open spec fn square_side(cell: Rect, icon_size: i32) -> int {
    let a = if icon_size < cell.w { icon_size as int } else { cell.w as int };
    if a < cell.h { a } else { cell.h as int }
}

/// The icon square inside a cell: centred across it and hard against its top.
pub fn icon_square(cell: Rect, icon_size: i32) -> (r: Rect)
    requires
        cell_ok(cell),
        0 <= icon_size <= COORD_LIMIT,
    ensures
        r.w == square_side(cell, icon_size),
        r.h == r.w,
        r.x == cell.x + (cell.w - r.w) / 2,
        r.y == cell.y,
{
    let a = if icon_size < cell.w { icon_size } else { cell.w };
    let size = if a < cell.h { a } else { cell.h };
    Rect::new(cell.x + (cell.w - size) / 2, cell.y, size, size)
}

/// Where the label goes: the width of the cell, below the icon square and a small gap, and
/// never a negative height.
pub fn label_area(cell: Rect, side: i32) -> (r: Rect)
    requires
        cell_ok(cell),
        0 <= side <= cell.h,
    ensures
        r == (Rect {
            x: cell.x,
            y: (cell.y + side + LABEL_GAP) as i32,
            w: cell.w,
            h: if cell.h - side - LABEL_GAP > 0 {
                (cell.h - side - LABEL_GAP) as i32
            } else {
                0
            },
        }),
{
    let h = cell.h - side - LABEL_GAP;
    Rect::new(cell.x, cell.y + side + LABEL_GAP, cell.w, if h > 0 { h } else { 0 })
}

} // verus!
