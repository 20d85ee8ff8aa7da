//! What the pointer does on the desktop surface.
//!
//! One event at a time: the menu, when one is posted, owns the pointer; otherwise motion is a
//! drag, a rubber band or a hover, a left press selects or opens, a right press posts the
//! menu, and a release drops whatever was carried. Starting programs, ending the session and
//! moving files are the program's to do; this says which, and keeps the selection, the menu
//! and the remembered positions in step.

use vstd::prelude::*;

use crate::layout::{Grid, Placed, Point, Rect};
use crate::menu::{clamp_start, panel_rect, standard_rows, Action, Menu, MenuView};
use crate::select::{
    after_motion, after_press, after_release, placed_ok, point_ok, rect_ok, topmost, Dropped,
    DroppedView, Selection, SelectionView,
};
use crate::state::{with_spot, State, StateView};

verus! {

/// A pointer event on the surface, in surface pixels.
#[derive(Debug, Clone, Copy, PartialEq, Eq)]
pub enum PointerEvent {
    /// The pointer came onto the surface at a point.
    Enter(Point),
    /// The pointer moved to a point.
    Motion(Point),
    /// The pointer left the surface.
    Leave,
    /// The left button went down at a point, at a time in milliseconds.
    PressLeft(Point, u32),
    /// The right button went down at a point.
    PressRight(Point),
    /// The left button came up.
    ReleaseLeft,
}

/// What the program has to do about an event, beyond what changed here.
#[derive(Debug, Clone, PartialEq, Eq)]
pub enum Effect {
    /// Nothing.
    Nothing,
    /// Carry out a menu choice.
    Perform(Action),
    /// Open the icon with this name, as a double-click asks.
    Activate(String),
    /// Icons were dropped somewhere new: lay the desktop out again.
    Relayout,
}

/// How the desktop answers one event.
#[derive(Debug, Clone, PartialEq, Eq)]
pub struct Reaction {
    /// Whether anything visible changed.
    pub redraw: bool,
    pub effect: Effect,
}

/// The view of a menu that may be posted.
pub open spec fn menu_view(m: Option<Menu>) -> Option<MenuView> {
    match m {
        Some(m) => Some(m@),
        None => None,
    }
}

/// A hover: the icon under the pointer, unless a drag holds it still.
pub open spec fn after_hover(s: SelectionView, placed: Seq<Placed>, point: Point) -> (SelectionView, bool) {
    if s.drag is Some {
        (s, false)
    } else {
        let under = match topmost(placed, point) {
            Some(i) => Some(placed[i].entry.name@),
            None => None,
        };
        (SelectionView { hovered: under, ..s }, under != s.hovered)
    }
}

/// The state with every drop remembered, in order.
pub open spec fn with_drops(s: StateView, drops: Seq<DroppedView>) -> StateView
    decreases drops.len(),
{
    if drops.len() == 0 {
        s
    } else {
        with_spot(with_drops(s, drops.drop_last()), drops.last().name, drops.last().spot)
    }
}

/// Where a menu posted at `at` goes: as asked, pulled back so the whole panel is on `area`.
pub open spec fn menu_origin(at: Point, selected: int, area: Rect) -> Point {
    let panel = panel_rect(standard_rows(selected > 0), Point { x: 0, y: 0 });
    Point {
        x: clamp_start(at.x as int, panel.w as int, area.x as int, area.w as int) as i32,
        y: clamp_start(at.y as int, panel.h as int, area.y as int, area.h as int) as i32,
    }
}

/// The event's point, if it has one, is one the surface can have.
pub open spec fn event_ok(event: PointerEvent) -> bool {
    match event {
        PointerEvent::Enter(p) => point_ok(p),
        PointerEvent::Motion(p) => point_ok(p),
        PointerEvent::PressLeft(p, _) => point_ok(p),
        PointerEvent::PressRight(p) => point_ok(p),
        _ => true,
    }
}

/// Remember every drop.
fn remember_drops(state: &mut State, drops: &Vec<Dropped>)
    ensures
        final(state)@ == with_drops(old(state)@, drops@.map_values(|d: Dropped| d@)),
{
    let ghost start = state@;
    let ghost all = drops@.map_values(|d: Dropped| d@);
    let mut i: usize = 0;
    assert(all.take(0) =~= Seq::<DroppedView>::empty());
    while i < drops.len()
        invariant
            i <= drops.len(),
            all == drops@.map_values(|d: Dropped| d@),
            state@ == with_drops(start, all.take(i as int)),
        decreases drops.len() - i,
    {
        assert(all.take(i + 1).drop_last() =~= all.take(i as int));
        assert(all.take(i + 1).last() == drops@[i as int]@);
        state.set_spot(drops[i].name.as_str(), drops[i].spot);
        i = i + 1;
    }
    assert(all.take(drops.len() as int) =~= all);
}

/// Answer one pointer event.
///
/// `placed` is the desktop as laid out, back to front; `grid` is what a drop snaps to and
/// `snap` whether it does; `area` is the surface, which a posted menu is kept inside. A drop
/// is remembered in `state` straight away, and the program lays the desktop out again.
pub fn pointer_event(
    menu: &mut Option<Menu>,
    selection: &mut Selection,
    state: &mut State,
    placed: &[Placed],
    grid: &Grid,
    snap: bool,
    area: Rect,
    event: PointerEvent,
) -> (r: Reaction)
    requires
        old(selection)@.wf(),
        *old(menu) matches Some(m) ==> m@.wf(),
        placed_ok(placed@),
        grid.wf(),
        rect_ok(area),
        event_ok(event),
    ensures
        final(selection)@.wf(),
        *final(menu) matches Some(m) ==> m@.wf(),
        match event {
            PointerEvent::Enter(p) | PointerEvent::Motion(p) => match *old(menu) {
                Some(m) => {
                    &&& menu_view(*final(menu)) == Some(MenuView { hovered: m@.hover_row(p), ..m@ })
                    &&& final(selection)@ == old(selection)@
                    &&& final(state)@ == old(state)@
                    &&& r == (Reaction { redraw: m@.hover_row(p) != m@.hovered, effect: Effect::Nothing })
                },
                None => {
                    let (moved, dragged) = after_motion(old(selection)@, placed@, p);
                    let (hovered, changed) = after_hover(moved, placed@, p);
                    &&& menu_view(*final(menu)) is None
                    &&& final(selection)@ == hovered
                    &&& final(state)@ == old(state)@
                    &&& r == (Reaction { redraw: dragged || changed, effect: Effect::Nothing })
                },
            },
            PointerEvent::Leave => {
                &&& menu_view(*final(menu)) == menu_view(*old(menu))
                &&& final(selection)@ == (SelectionView { hovered: None, ..old(selection)@ })
                &&& final(state)@ == old(state)@
                &&& r == (Reaction { redraw: old(selection)@.hovered is Some, effect: Effect::Nothing })
            },
            PointerEvent::PressRight(p) => {
                let n = old(selection)@.selected.len();
                &&& menu_view(*final(menu)) == Some(
                    MenuView {
                        origin: menu_origin(p, n as int, area),
                        rows: standard_rows(n > 0),
                        hovered: None,
                    },
                )
                &&& final(selection)@ == old(selection)@
                &&& final(state)@ == old(state)@
                &&& r == (Reaction { redraw: true, effect: Effect::Nothing })
            },
            PointerEvent::PressLeft(p, time) => match *old(menu) {
                Some(m) => {
                    &&& menu_view(*final(menu)) is None
                    &&& final(selection)@ == old(selection)@
                    &&& final(state)@ == old(state)@
                    &&& r.redraw
                    &&& r.effect == match m@.action_at(p) {
                        Some(a) => Effect::Perform(a),
                        None => Effect::Nothing,
                    }
                },
                None => {
                    let (pressed, outcome) = after_press(old(selection)@, placed@, p, time);
                    &&& menu_view(*final(menu)) is None
                    &&& final(selection)@ == pressed
                    &&& final(state)@ == old(state)@
                    &&& r.redraw == outcome.changed
                    &&& match outcome.activate {
                        Some(name) => r.effect matches Effect::Activate(n) && n@ == name,
                        None => r.effect == Effect::Nothing,
                    }
                },
            },
            PointerEvent::ReleaseLeft => {
                let (released, drops) = after_release(old(selection)@, placed@, *grid, snap);
                &&& menu_view(*final(menu)) == menu_view(*old(menu))
                &&& final(selection)@ == released
                &&& final(state)@ == with_drops(old(state)@, drops)
                &&& r == (Reaction {
                    redraw: true,
                    effect: if drops.len() > 0 {
                        Effect::Relayout
                    } else {
                        Effect::Nothing
                    },
                })
            },
        },
{
    match event {
        PointerEvent::Enter(p) | PointerEvent::Motion(p) => {
            // An open menu owns the pointer: it is drawn over the desktop, so hovering an icon
            // underneath would highlight something out of reach until the menu goes away.
            match menu {
                Some(m) => {
                    let changed = m.hover(p);
                    return Reaction { redraw: changed, effect: Effect::Nothing };
                },
                None => {},
            }
            // While a button is held this is a drag or a rubber band; otherwise a hover.
            let dragged = selection.motion(placed, p);
            let hovered = selection.hover(placed, p);
            Reaction { redraw: dragged || hovered, effect: Effect::Nothing }
        },
        PointerEvent::Leave => {
            let changed = selection.leave();
            Reaction { redraw: changed, effect: Effect::Nothing }
        },
        PointerEvent::PressRight(p) => {
            // A right click posts the menu; a second one moves it.
            let selected = selection.selected().len();
            let size = Menu::size_for(selected);
            let origin = Menu::clamp(p, size, area);
            proof {
                assert(origin.x <= p.x || origin.x == area.x);
                assert(origin.y <= p.y || origin.y == area.y);
            }
            *menu = Some(Menu::new(origin, selected));
            Reaction { redraw: true, effect: Effect::Nothing }
        },
        PointerEvent::PressLeft(p, time) => {
            // With a menu open, a press either chooses a row or puts the menu away; either way
            // it does not reach the desktop underneath.
            let posted = menu.take();
            match posted {
                Some(m) => {
                    let effect = match m.action_at(p) {
                        Some(action) => Effect::Perform(action),
                        None => Effect::Nothing,
                    };
                    Reaction { redraw: true, effect }
                },
                None => {
                    let pressed = selection.press(placed, p, time);
                    let effect = match pressed.activate {
                        Some(name) => Effect::Activate(name),
                        None => Effect::Nothing,
                    };
                    Reaction { redraw: pressed.changed, effect }
                },
            }
        },
        PointerEvent::ReleaseLeft => {
            // A drop can move several icons at once, when a band selected them and one of them
            // was then dragged.
            let dropped = selection.release(placed, grid, snap);
            remember_drops(state, &dropped);
            let effect = if dropped.len() > 0 {
                Effect::Relayout
            } else {
                Effect::Nothing
            };
            Reaction { redraw: true, effect }
        },
    }
}

/// What a menu choice asks of the program.
#[derive(Debug, Clone, PartialEq, Eq)]
pub enum Task {
    /// Nothing to do: the row is drawn but not implemented yet.
    Nothing,
    /// Only the picture changed.
    Redraw,
    /// End the session.
    LogOut,
    /// Open each of these, as double-clicking each would.
    Open(Vec<String>),
    /// Move each of these to the trash.
    Remove(Vec<String>),
}

/// Carry out a menu choice as far as the desktop itself goes, and say what is left for the
/// program. Select All picks every name in `names`, the files on the desktop.
pub fn perform(action: Action, selection: &mut Selection, names: &[String]) -> (r: Task)
    ensures
        action == Action::SelectAll ==> final(selection)@ == (SelectionView {
            selected: names@.map_values(|s: String| s@),
            ..old(selection)@
        }) && r == Task::Redraw,
        action != Action::SelectAll ==> final(selection)@ == old(selection)@,
        action == Action::LogOut ==> r == Task::LogOut,
        action == Action::Open ==> (r matches Task::Open(v) && v.deep_view() == old(selection)@.selected),
        action == Action::Remove ==> (r matches Task::Remove(v) && v.deep_view() == old(selection)@.selected),
        (action == Action::MakeCopy || action == Action::MakeReference || action == Action::ChangePermissions
            || action == Action::AddNewDirectory) ==> r == Task::Nothing,
{
    match action {
        Action::LogOut => Task::LogOut,
        Action::Open => Task::Open(crate::strings::copy_strings_slice(selection.selected())),
        Action::Remove => Task::Remove(crate::strings::copy_strings_slice(selection.selected())),
        Action::SelectAll => {
            selection.select_all(names);
            Task::Redraw
        },
        // Drawn but disabled, so a menu never hands these back; named rather than caught by a
        // wildcard, so a new action cannot silently do nothing.
        Action::MakeCopy | Action::MakeReference | Action::ChangePermissions | Action::AddNewDirectory => Task::Nothing,
    }
}

} // verus!
