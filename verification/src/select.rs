//! Hover, selection, and dragging an icon.
//!
//! Pure state: this takes pointer positions and gives back what changed, so the whole
//! interaction can be exercised without a compositor. The program turns Wayland events into
//! these calls and redraws when one reports a change.
//!
//! A press arms a possible drag, and only once the pointer has moved past a threshold does it
//! become a move rather than a click. Without that, a click with a shaky hand nudges the icon
//! a pixel and the user never gets a clean selection.
//!
//! Pressing bare desktop and dragging pulls out a **rubber band**: every icon it touches is
//! selected. Pressing an icon that is already in the selection drags the *whole* selection;
//! pressing one that is not replaces the selection with it.

use vstd::prelude::*;

use crate::layout::{Grid, Placed, Point, Rect, Spot, COORD_LIMIT};
use crate::strings::copy_strings;

verus! {

/// How far the pointer must travel after a press before it counts as a drag, squared: six
/// pixels.
pub const DRAG_THRESHOLD_SQUARED: i64 = 36;

/// How close together two presses on the same icon have to be to open it, in milliseconds.
pub const DOUBLE_CLICK_MS: u32 = 400;

/// An in-progress drag.
#[derive(Debug, Clone, PartialEq)]
struct Drag {
    /// The files being moved, by name.
    names: Vec<String>,
    /// The one actually under the pointer when the press landed.
    pressed: String,
    /// Where the press started. Everything moves by `current - press`.
    press: Point,
    /// The latest pointer position.
    current: Point,
    /// Whether the threshold has been passed.
    moved: bool,
}

/// A rubber band being dragged out over the desktop.
#[derive(Debug, Clone, Copy, PartialEq, Eq)]
struct Band {
    origin: Point,
    current: Point,
}

/// What is hovered, what is selected, and what is being dragged.
#[derive(Debug, Clone, PartialEq)]
pub struct Selection {
    hovered: Option<String>,
    /// Every picked file. Usually one; more after a rubber band.
    selected: Vec<String>,
    drag: Option<Drag>,
    /// The rubber band, while one is being dragged out.
    band: Option<Band>,
    /// The last press on an icon: which, and when.
    last_press: Option<(String, u32)>,
}

/// What a press amounted to.
#[derive(Debug, Clone, PartialEq, Eq)]
pub struct Pressed {
    /// Whether anything visible changed, so the desktop should redraw.
    pub changed: bool,
    /// Set when the press completed a double-click: open this icon.
    pub activate: Option<String>,
}

/// What a drop settled on, for the caller to remember and save.
#[derive(Debug, Clone, PartialEq)]
pub struct Dropped {
    pub name: String,
    pub spot: Spot,
}

/// The mathematical content of a drag.
pub struct DragView {
    pub names: Seq<Seq<char>>,
    pub pressed: Seq<char>,
    pub press: Point,
    pub current: Point,
    pub moved: bool,
}

/// The mathematical content of a [`Selection`].
pub struct SelectionView {
    pub hovered: Option<Seq<char>>,
    pub selected: Seq<Seq<char>>,
    pub drag: Option<DragView>,
    /// The band's origin and its current corner.
    pub band: Option<(Point, Point)>,
    pub last_press: Option<(Seq<char>, u32)>,
}

/// The mathematical content of a [`Pressed`].
pub struct PressedView {
    pub changed: bool,
    pub activate: Option<Seq<char>>,
}

/// The mathematical content of a [`Dropped`].
pub struct DroppedView {
    pub name: Seq<char>,
    pub spot: Spot,
}

impl View for Pressed {
    type V = PressedView;

    open spec fn view(&self) -> PressedView {
        PressedView { changed: self.changed, activate: crate::strings::opt_view(self.activate) }
    }
}

impl View for Dropped {
    type V = DroppedView;

    open spec fn view(&self) -> DroppedView {
        DroppedView { name: self.name@, spot: self.spot }
    }
}

spec fn drag_view(d: Drag) -> DragView {
    DragView {
        names: d.names.deep_view(),
        pressed: d.pressed@,
        press: d.press,
        current: d.current,
        moved: d.moved,
    }
}

impl View for Selection {
    type V = SelectionView;

    closed spec fn view(&self) -> SelectionView {
        SelectionView {
            hovered: crate::strings::opt_view(self.hovered),
            selected: self.selected.deep_view(),
            drag: match self.drag {
                Some(d) => Some(drag_view(d)),
                None => None,
            },
            band: match self.band {
                Some(b) => Some((b.origin, b.current)),
                None => None,
            },
            last_press: match self.last_press {
                Some((name, at)) => Some((name@, at)),
                None => None,
            },
        }
    }
}

/// A pointer position the surface can have: within the coordinate limit each way. A surface
/// is never that large; the limit keeps the drag offsets, the band's sides and the squared
/// drag distance inside their integer types (see [`crate::layout::COORD_LIMIT`]).
pub open spec fn point_ok(p: Point) -> bool {
    -COORD_LIMIT <= p.x <= COORD_LIMIT && -COORD_LIMIT <= p.y <= COORD_LIMIT
}

/// A laid-out rectangle the surface can have.
pub open spec fn rect_ok(r: Rect) -> bool {
    -COORD_LIMIT <= r.x <= COORD_LIMIT && -COORD_LIMIT <= r.y <= COORD_LIMIT && 0 <= r.w
        <= COORD_LIMIT && 0 <= r.h <= COORD_LIMIT
}

/// Every icon's rectangle is one the surface can have.
pub open spec fn placed_ok(placed: Seq<Placed>) -> bool {
    forall|i: int| 0 <= i < placed.len() ==> rect_ok(#[trigger] placed[i].rect)
}

impl SelectionView {
    /// The positions held are ones the surface can have.
    pub open spec fn wf(self) -> bool {
        &&& (self.drag matches Some(d) ==> point_ok(d.press) && point_ok(d.current))
        &&& (self.band matches Some(b) ==> point_ok(b.0) && point_ok(b.1))
    }
}

/// The band between two corners, whichever way it was dragged.
pub open spec fn band_rect(origin: Point, current: Point) -> Rect {
    Rect {
        x: if origin.x <= current.x {
            origin.x
        } else {
            current.x
        },
        y: if origin.y <= current.y {
            origin.y
        } else {
            current.y
        },
        w: (if origin.x >= current.x {
            origin.x - current.x
        } else {
            current.x - origin.x
        }) as i32,
        h: (if origin.y >= current.y {
            origin.y - current.y
        } else {
            current.y - origin.y
        }) as i32,
    }
}

/// The icon under `point`: the last one drawn there, which is the one on top.
pub open spec fn topmost(placed: Seq<Placed>, point: Point) -> Option<int>
    decreases placed.len(),
{
    if placed.len() == 0 {
        None
    } else if placed.last().rect.spec_contains(point) {
        Some(placed.len() - 1)
    } else {
        topmost(placed.drop_last(), point)
    }
}

/// The names of every icon whose rectangle shares area with `rect`, in order.
pub open spec fn touching(placed: Seq<Placed>, rect: Rect) -> Seq<Seq<char>>
    decreases placed.len(),
{
    if placed.len() == 0 {
        seq![]
    } else {
        let prev = touching(placed.drop_last(), rect);
        if rect.spec_intersects(placed.last().rect) {
            prev.push(placed.last().entry.name@)
        } else {
            prev
        }
    }
}

/// The names of `names` that are in `present`, in order.
pub open spec fn keep_present(names: Seq<Seq<char>>, present: Seq<Seq<char>>) -> Seq<Seq<char>>
    decreases names.len(),
{
    if names.len() == 0 {
        seq![]
    } else {
        let prev = keep_present(names.drop_last(), present);
        if present.contains(names.last()) {
            prev.push(names.last())
        } else {
            prev
        }
    }
}

/// The first icon called `name`.
pub open spec fn named(placed: Seq<Placed>, name: Seq<char>, i: int) -> Option<int>
    decreases placed.len() - i,
{
    if i < 0 || i >= placed.len() {
        None
    } else if placed[i].entry.name@ == name {
        Some(i)
    } else {
        named(placed, name, i + 1)
    }
}

/// Where an icon whose rectangle starts at `origin` lands on release.
///
/// With snap on, the cell whose centre is nearest the icon's *centre*: dropping an icon with
/// its centre inside a cell chooses that cell (see [`crate::layout::law_nearest_slot_of_a_cell_point`]).
/// With snap off, the point itself, pulled back onto the screen.
pub open spec fn landing(grid: Grid, origin: Point, snap: bool) -> Spot {
    if snap {
        Spot::Slot(
            grid.spec_nearest_slot(
                Point {
                    x: (origin.x + grid.metrics.cell_w / 2) as i32,
                    y: (origin.y + grid.metrics.cell_h / 2) as i32,
                },
            ) as i32,
        )
    } else {
        Spot::Free(grid.spec_clamp_point(origin))
    }
}

/// What each dragged icon settles on, in the order of `names`: every one still on the desktop
/// moves by the same `delta`.
pub open spec fn drops(placed: Seq<Placed>, names: Seq<Seq<char>>, delta: Point, grid: Grid, snap: bool) -> Seq<
    DroppedView,
>
    decreases names.len(),
{
    if names.len() == 0 {
        seq![]
    } else {
        let prev = drops(placed, names.drop_last(), delta, grid, snap);
        match named(placed, names.last(), 0) {
            Some(k) => {
                let origin = Point {
                    x: (placed[k].rect.x + delta.x) as i32,
                    y: (placed[k].rect.y + delta.y) as i32,
                };
                prev.push(DroppedView { name: names.last(), spot: landing(grid, origin, snap) })
            },
            None => prev,
        }
    }
}

/// Whether `time` comes soon enough after `at` on the pointer's free-running clock, which
/// wraps.
pub open spec fn soon_after(time: u32, at: u32) -> bool {
    time.wrapping_sub(at) <= DOUBLE_CLICK_MS
}

/// A press: what the selection becomes, and what the press amounted to.
pub open spec fn after_press(s: SelectionView, placed: Seq<Placed>, point: Point, time: u32) -> (
    SelectionView,
    PressedView,
) {
    match topmost(placed, point) {
        None => (
            SelectionView {
                hovered: s.hovered,
                selected: seq![],
                drag: None,
                band: Some((point, point)),
                last_press: None,
            },
            PressedView { changed: s.selected.len() > 0, activate: None },
        ),
        Some(i) => {
            let name = placed[i].entry.name@;
            let doubled = match s.last_press {
                Some((last, at)) => last == name && soon_after(time, at),
                None => false,
            };
            let kept = s.selected.contains(name);
            let selected = if kept {
                s.selected
            } else {
                seq![name]
            };
            (
                SelectionView {
                    hovered: s.hovered,
                    selected,
                    drag: Some(
                        DragView {
                            names: selected,
                            pressed: name,
                            press: point,
                            current: point,
                            moved: false,
                        },
                    ),
                    band: s.band,
                    last_press: if doubled {
                        None
                    } else {
                        Some((name, time))
                    },
                },
                PressedView {
                    changed: !kept,
                    activate: if doubled {
                        Some(name)
                    } else {
                        None
                    },
                },
            )
        },
    }
}

/// Pointer motion with a button held: what the selection becomes, and whether anything
/// changed on screen.
pub open spec fn after_motion(s: SelectionView, placed: Seq<Placed>, point: Point) -> (
    SelectionView,
    bool,
) {
    match s.band {
        Some((origin, current)) => if current == point {
            (s, false)
        } else {
            (
                SelectionView {
                    selected: touching(placed, band_rect(origin, point)),
                    band: Some((origin, point)),
                    ..s
                },
                true,
            )
        },
        None => match s.drag {
            None => (s, false),
            Some(d) => {
                let dx = point.x - d.press.x;
                let dy = point.y - d.press.y;
                if d.moved {
                    (SelectionView { drag: Some(DragView { current: point, ..d }), ..s }, true)
                } else if dx * dx + dy * dy >= DRAG_THRESHOLD_SQUARED {
                    (
                        SelectionView {
                            drag: Some(DragView { current: point, moved: true, ..d }),
                            last_press: None,
                            ..s
                        },
                        true,
                    )
                } else {
                    (SelectionView { drag: Some(DragView { current: point, ..d }), ..s }, false)
                }
            },
        },
    }
}

/// A release: what the selection becomes, and where the dragged icons landed.
pub open spec fn after_release(s: SelectionView, placed: Seq<Placed>, grid: Grid, snap: bool) -> (
    SelectionView,
    Seq<DroppedView>,
) {
    if s.band is Some {
        (SelectionView { band: None, ..s }, seq![])
    } else {
        match s.drag {
            None => (s, seq![]),
            Some(d) => if !d.moved {
                (SelectionView { drag: None, selected: seq![d.pressed], ..s }, seq![])
            } else {
                let delta = Point {
                    x: (d.current.x - d.press.x) as i32,
                    y: (d.current.y - d.press.y) as i32,
                };
                (SelectionView { drag: None, ..s }, drops(placed, d.names, delta, grid, snap))
            },
        }
    }
}

/// Forgetting files no longer on the desktop.
pub open spec fn after_retain(s: SelectionView, present: Seq<Seq<char>>) -> SelectionView {
    SelectionView {
        hovered: match s.hovered {
            Some(h) => if present.contains(h) {
                Some(h)
            } else {
                None
            },
            None => None,
        },
        selected: keep_present(s.selected, present),
        drag: match s.drag {
            Some(d) => {
                let names = keep_present(d.names, present);
                if names.len() == 0 {
                    None
                } else {
                    Some(DragView { names, ..d })
                }
            },
            None => None,
        },
        ..s
    }
}

/// The view of an optional string slice.
pub open spec fn str_opt(o: Option<&str>) -> Option<Seq<char>> {
    match o {
        Some(s) => Some(s@),
        None => None,
    }
}

/// The icon under `point`, topmost first.
fn icon_at(placed: &[Placed], point: Point) -> (r: Option<usize>)
    ensures
        match r {
            Some(i) => i < placed.len() && topmost(placed@, point) == Some(i as int),
            None => topmost(placed@, point) is None,
        },
{
    let mut i = placed.len();
    assert(placed@.subrange(0, placed@.len() as int) =~= placed@);
    while i > 0
        invariant
            i <= placed.len(),
            topmost(placed@, point) == topmost(placed@.subrange(0, i as int), point),
        decreases i,
    {
        let ghost sub = placed@.subrange(0, i as int);
        assert(sub.drop_last() =~= placed@.subrange(0, i - 1));
        if placed[i - 1].rect.contains(point) {
            return Some(i - 1);
        }
        i = i - 1;
    }
    assert(placed@.subrange(0, 0) =~= Seq::<Placed>::empty());
    None
}

/// Whether `names` holds `name`.
fn holds_name(names: &Vec<String>, name: &str) -> (r: bool)
    ensures
        r == names.deep_view().contains(name@),
{
    let mut i: usize = 0;
    while i < names.len()
        invariant
            i <= names.len(),
            forall|j: int| 0 <= j < i ==> names.deep_view()[j] != name@,
        decreases names.len() - i,
    {
        if crate::strings::same(names[i].as_str(), name) {
            assert(names.deep_view()[i as int] == name@);
            return true;
        }
        i = i + 1;
    }
    false
}

/// The names of `names` that are in `present`.
fn kept_names(names: &Vec<String>, present: &[String]) -> (r: Vec<String>)
    ensures
        r.deep_view() == keep_present(names.deep_view(), present@.map_values(|s: String| s@)),
{
    let ghost all = names.deep_view();
    let ghost p = present@.map_values(|s: String| s@);
    let mut out: Vec<String> = Vec::new();
    assert(all.subrange(0, 0) =~= Seq::<Seq<char>>::empty());
    assert(out.deep_view() =~= Seq::<Seq<char>>::empty());
    for i in 0..names.len()
        invariant
            all == names.deep_view(),
            p == present@.map_values(|s: String| s@),
            out.deep_view() == keep_present(all.subrange(0, i as int), p),
    {
        assert(all.subrange(0, i + 1).drop_last() =~= all.subrange(0, i as int));
        assert(all.subrange(0, i + 1).last() == names@[i as int]@);
        let mut found = false;
        let mut j: usize = 0;
        while j < present.len()
            invariant
                j <= present.len(),
                i < names.len(),
                p == present@.map_values(|s: String| s@),
                found == exists|k: int| 0 <= k < j && p[k] == names@[i as int]@,
            decreases present.len() - j,
        {
            if crate::strings::same(present[j].as_str(), names[i].as_str()) {
                assert(p[j as int] == names@[i as int]@);
                found = true;
            }
            j = j + 1;
        }
        proof {
            if found {
                let k = choose|k: int| 0 <= k < j && p[k] == names@[i as int]@;
                assert(p.contains(names@[i as int]@));
            } else {
                assert forall|k: int| 0 <= k < p.len() implies p[k] != names@[i as int]@ by {}
            }
        }
        if found {
            let ghost before = out.deep_view();
            out.push(names[i].clone());
            assert(out.deep_view() =~= before.push(names@[i as int]@));
        }
    }
    assert(all.subrange(0, all.len() as int) =~= all);
    out
}

impl Default for Selection {
    /// Nothing hovered, selected or dragged.
    fn default() -> (s: Self)
        ensures
            s@.hovered is None,
            s@.selected.len() == 0,
            s@.drag is None,
            s@.band is None,
            s@.last_press is None,
    {
        Selection {
            hovered: None,
            selected: Vec::new(),
            drag: None,
            band: None,
            last_press: None,
        }
    }
}

impl Selection {
    /// Nothing hovered, selected or dragged.
    pub fn new() -> (s: Self)
        ensures
            s@.hovered is None,
            s@.selected.len() == 0,
            s@.drag is None,
            s@.band is None,
            s@.last_press is None,
            s@.wf(),
    {
        Selection {
            hovered: None,
            selected: Vec::new(),
            drag: None,
            band: None,
            last_press: None,
        }
    }

    /// The file under the pointer, if any.
    pub fn hovered(&self) -> (r: Option<&str>)
        ensures
            str_opt(r) == self@.hovered,
    {
        match &self.hovered {
            Some(h) => Some(h.as_str()),
            None => None,
        }
    }

    /// Every picked file.
    pub fn selected(&self) -> (r: &[String])
        ensures
            r@.map_values(|s: String| s@) == self@.selected,
    {
        let r = self.selected.as_slice();
        assert(r@.map_values(|s: String| s@) =~= self.selected.deep_view());
        r
    }

    /// Whether `name` is picked.
    pub fn is_selected(&self, name: &str) -> (r: bool)
        ensures
            r == self@.selected.contains(name@),
    {
        holds_name(&self.selected, name)
    }

    /// Whether `name` is being dragged, once the threshold has been passed.
    ///
    /// False while a press is merely armed, so a click does not make the icon jump.
    pub fn is_dragging(&self, name: &str) -> (r: bool)
        ensures
            r == (self@.drag matches Some(d) && d.moved && d.names.contains(name@)),
    {
        match &self.drag {
            Some(drag) => drag.moved && holds_name(&drag.names, name),
            None => false,
        }
    }

    /// How far the dragged icons have traveled from where they were picked up: the same for
    /// every icon, so a group stays rigid.
    pub fn drag_delta(&self) -> (r: Option<Point>)
        requires
            self@.wf(),
        ensures
            r == match self@.drag {
                Some(d) => if d.moved {
                    Some(
                        Point {
                            x: (d.current.x - d.press.x) as i32,
                            y: (d.current.y - d.press.y) as i32,
                        },
                    )
                } else {
                    None
                },
                None => None,
            },
    {
        match &self.drag {
            Some(drag) => if drag.moved {
                Some(Point::new(drag.current.x - drag.press.x, drag.current.y - drag.press.y))
            } else {
                None
            },
            None => None,
        }
    }

    /// The rubber band to draw, if one is being dragged out.
    pub fn band(&self) -> (r: Option<Rect>)
        requires
            self@.wf(),
        ensures
            r == match self@.band {
                Some((origin, current)) => Some(band_rect(origin, current)),
                None => None,
            },
    {
        match &self.band {
            Some(b) => {
                let o = b.origin;
                let c = b.current;
                let x = if o.x <= c.x {
                    o.x
                } else {
                    c.x
                };
                let y = if o.y <= c.y {
                    o.y
                } else {
                    c.y
                };
                let w = if o.x >= c.x {
                    o.x - c.x
                } else {
                    c.x - o.x
                };
                let h = if o.y >= c.y {
                    o.y - c.y
                } else {
                    c.y - o.y
                };
                Some(Rect::new(x, y, w, h))
            },
            None => None,
        }
    }

    /// Forget the files that are no longer on the desktop: a hovered or selected file that
    /// has been deleted must not leave a highlight pointing at nothing, and a drag loses the
    /// icons that went but carries on with the rest.
    pub fn retain_only(&mut self, present: &[String])
        requires
            old(self)@.wf(),
        ensures
            final(self)@ == after_retain(old(self)@, present@.map_values(|s: String| s@)),
            final(self)@.wf(),
    {
        let ghost p = present@.map_values(|s: String| s@);
        let drop_hover = match &self.hovered {
            Some(h) => {
                let mut found = false;
                let mut j: usize = 0;
                while j < present.len()
                    invariant
                        j <= present.len(),
                        p == present@.map_values(|s: String| s@),
                        found == exists|k: int| 0 <= k < j && p[k] == h@,
                    decreases present.len() - j,
                {
                    if crate::strings::same(present[j].as_str(), h.as_str()) {
                        assert(p[j as int] == h@);
                        found = true;
                    }
                    j = j + 1;
                }
                proof {
                    if found {
                        let k = choose|k: int| 0 <= k < j && p[k] == h@;
                        assert(p.contains(h@));
                    } else {
                        assert forall|k: int| 0 <= k < p.len() implies p[k] != h@ by {}
                    }
                }
                !found
            },
            None => false,
        };
        if drop_hover {
            self.hovered = None;
        }
        self.selected = kept_names(&self.selected, present);
        let drag = self.drag.take();
        match drag {
            Some(d) => {
                let names = kept_names(&d.names, present);
                if names.len() == 0 {
                    self.drag = None;
                } else {
                    self.drag = Some(
                        Drag {
                            names,
                            pressed: d.pressed,
                            press: d.press,
                            current: d.current,
                            moved: d.moved,
                        },
                    );
                }
            },
            None => {},
        }
    }

    /// Pick every icon on the desktop, as the menu's Select All does.
    pub fn select_all(&mut self, names: &[String])
        ensures
            final(self)@ == (SelectionView { selected: names@.map_values(|s: String| s@), ..old(self)@ }),
    {
        let mut all: Vec<String> = Vec::new();
        let mut i: usize = 0;
        while i < names.len()
            invariant
                i <= names.len(),
                all.deep_view() == names@.map_values(|s: String| s@).take(i as int),
            decreases names.len() - i,
        {
            let ghost before = all.deep_view();
            all.push(crate::strings::string_of(crate::strings::chars_of(names[i].as_str()).as_slice()));
            assert(all.deep_view() =~= before.push(names@[i as int]@));
            assert(names@.map_values(|s: String| s@).take(i + 1) =~= before.push(names@[i as int]@));
            i = i + 1;
        }
        assert(names@.map_values(|s: String| s@).take(names.len() as int) =~= names@.map_values(|s: String| s@));
        self.selected = all;
    }

    /// Update the hover from a pointer position. Returns whether anything changed.
    ///
    /// A drag owns the pointer: the icon under it is the one being carried, so the hover
    /// holds still until the drag ends.
    pub fn hover(&mut self, placed: &[Placed], point: Point) -> (r: bool)
        ensures
            old(self)@.drag is Some ==> final(self)@ == old(self)@ && !r,
            old(self)@.drag is None ==> {
                let under = match topmost(placed@, point) {
                    Some(i) => Some(placed@[i].entry.name@),
                    None => None,
                };
                &&& final(self)@ == (SelectionView { hovered: under, ..old(self)@ })
                &&& r == (under != old(self)@.hovered)
            },
    {
        if self.drag.is_some() {
            return false;
        }
        let under = match icon_at(placed, point) {
            Some(i) => Some(placed[i].entry.name.clone()),
            None => None,
        };
        let same = match (&under, &self.hovered) {
            (Some(a), Some(b)) => *a == *b,
            (None, None) => true,
            _ => false,
        };
        if same {
            return false;
        }
        self.hovered = under;
        true
    }

    /// The pointer left the surface. Returns whether anything changed.
    pub fn leave(&mut self) -> (r: bool)
        ensures
            final(self)@ == (SelectionView { hovered: None, ..old(self)@ }),
            r == (old(self)@.hovered is Some),
    {
        if self.hovered.is_none() {
            return false;
        }
        self.hovered = None;
        true
    }

    /// A press. Selects whatever is under the pointer -- or clears the selection and starts a
    /// rubber band if that is bare desktop -- arms a possible drag, and reports a
    /// double-click.
    ///
    /// `time` is the pointer event's own millisecond stamp.
    pub fn press(&mut self, placed: &[Placed], point: Point, time: u32) -> (r: Pressed)
        requires
            old(self)@.wf(),
            point_ok(point),
        ensures
            (final(self)@, r@) == after_press(old(self)@, placed@, point, time),
            final(self)@.wf(),
    {
        match icon_at(placed, point) {
            None => {
                let changed = self.selected.len() > 0;
                self.selected = Vec::new();
                self.drag = None;
                self.last_press = None;
                self.band = Some(Band { origin: point, current: point });
                proof {
                    assert(self@.selected =~= Seq::<Seq<char>>::empty());
                }
                Pressed { changed, activate: None }
            },
            Some(i) => {
                let name = placed[i].entry.name.clone();
                let doubled = match &self.last_press {
                    Some((last, at)) => *last == name && time.wrapping_sub(*at) <= DOUBLE_CLICK_MS,
                    None => false,
                };
                self.last_press = if doubled {
                    None
                } else {
                    Some((name.clone(), time))
                };
                let kept = holds_name(&self.selected, name.as_str());
                if !kept {
                    let mut one: Vec<String> = Vec::new();
                    one.push(name.clone());
                    self.selected = one;
                    assert(self.selected.deep_view() =~= seq![name@]);
                }
                self.drag = Some(
                    Drag {
                        names: copy_strings(&self.selected),
                        pressed: name.clone(),
                        press: point,
                        current: point,
                        moved: false,
                    },
                );
                Pressed {
                    changed: !kept,
                    activate: if doubled {
                        Some(name)
                    } else {
                        None
                    },
                }
            },
        }
    }

    /// Pointer motion while a button is held.
    ///
    /// Either grows the rubber band -- reselecting, from scratch, whatever it now touches, so
    /// shrinking it lets go again -- or moves the icons being dragged. Returns whether
    /// anything changed on screen.
    pub fn motion(&mut self, placed: &[Placed], point: Point) -> (r: bool)
        requires
            old(self)@.wf(),
            point_ok(point),
        ensures
            (final(self)@, r) == after_motion(old(self)@, placed@, point),
            final(self)@.wf(),
    {
        match self.band {
            Some(band) => {
                if band.current == point {
                    return false;
                }
                self.band = Some(Band { origin: band.origin, current: point });
                let rect = self.band().unwrap();
                let covered = names_touching(placed, rect);
                self.selected = covered;
                return true;
            },
            None => {},
        }
        let drag = self.drag.take();
        match drag {
            None => false,
            Some(d) => {
                let moved = d.moved;
                let dx = point.x as i64 - d.press.x as i64;
                let dy = point.y as i64 - d.press.y as i64;
                assert(0 <= dx * dx <= 0x10_0000_0000_0000_00 && 0 <= dy * dy <= 0x10_0000_0000_0000_00) by (nonlinear_arith)
                    requires
                        -0x2000_0000 <= dx <= 0x2000_0000,
                        -0x2000_0000 <= dy <= 0x2000_0000,
                ;
                let far = dx * dx + dy * dy >= DRAG_THRESHOLD_SQUARED;
                let now_moved = moved || far;
                self.drag = Some(
                    Drag {
                        names: d.names,
                        pressed: d.pressed,
                        press: d.press,
                        current: point,
                        moved: now_moved,
                    },
                );
                if moved {
                    true
                } else if far {
                    self.last_press = None;
                    true
                } else {
                    false
                }
            },
        }
    }

    /// A release. If the press turned into a drag, says where each icon landed.
    ///
    /// A release that never passed the threshold was a click: if it landed inside a group,
    /// the selection narrows to the icon clicked, and nothing moves. Ending a rubber band
    /// likewise moves nothing -- it only puts the band away, leaving whatever it caught
    /// selected.
    pub fn release(&mut self, placed: &[Placed], grid: &Grid, snap: bool) -> (r: Vec<Dropped>)
        requires
            old(self)@.wf(),
            placed_ok(placed@),
            grid.wf(),
        ensures
            (final(self)@, r@.map_values(|d: Dropped| d@)) == after_release(
                old(self)@,
                placed@,
                *grid,
                snap,
            ),
            final(self)@.wf(),
    {
        if self.band.is_some() {
            self.band = None;
            return Vec::new();
        }
        let drag = self.drag.take();
        let d = match drag {
            Some(d) => d,
            None => return Vec::new(),
        };
        if !d.moved {
            let mut one: Vec<String> = Vec::new();
            one.push(d.pressed);
            self.selected = one;
            proof {
                assert(self@.selected =~= seq![d.pressed@]);
            }
            return Vec::new();
        }
        let delta = Point::new(d.current.x - d.press.x, d.current.y - d.press.y);
        dropped_at(placed, &d.names, delta, grid, snap)
    }
}

/// The names of the icons `rect` touches.
fn names_touching(placed: &[Placed], rect: Rect) -> (r: Vec<String>)
    ensures
        r.deep_view() == touching(placed@, rect),
{
    let mut out: Vec<String> = Vec::new();
    assert(placed@.subrange(0, 0) =~= Seq::<Placed>::empty());
    assert(out.deep_view() =~= Seq::<Seq<char>>::empty());
    for i in 0..placed.len()
        invariant
            out.deep_view() == touching(placed@.subrange(0, i as int), rect),
    {
        assert(placed@.subrange(0, i + 1).drop_last() =~= placed@.subrange(0, i as int));
        if rect.intersects(placed[i].rect) {
            let ghost before = out.deep_view();
            out.push(placed[i].entry.name.clone());
            assert(out.deep_view() =~= before.push(placed@[i as int].entry.name@));
        }
    }
    assert(placed@.subrange(0, placed@.len() as int) =~= placed@);
    out
}

/// The first icon called `name`.
fn find_named(placed: &[Placed], name: &str) -> (r: Option<usize>)
    ensures
        match r {
            Some(k) => k < placed.len() && named(placed@, name@, 0) == Some(k as int),
            None => named(placed@, name@, 0) is None,
        },
{
    let mut i: usize = 0;
    while i < placed.len()
        invariant
            i <= placed.len(),
            named(placed@, name@, i as int) == named(placed@, name@, 0),
        decreases placed.len() - i,
    {
        if crate::strings::same(placed[i].entry.name.as_str(), name) {
            return Some(i);
        }
        i = i + 1;
    }
    None
}

/// Where each of `names` lands after moving by `delta`.
fn dropped_at(placed: &[Placed], names: &Vec<String>, delta: Point, grid: &Grid, snap: bool) -> (r:
    Vec<Dropped>)
    requires
        placed_ok(placed@),
        grid.wf(),
        -2 * COORD_LIMIT <= delta.x <= 2 * COORD_LIMIT,
        -2 * COORD_LIMIT <= delta.y <= 2 * COORD_LIMIT,
    ensures
        r@.map_values(|d: Dropped| d@) == drops(placed@, names.deep_view(), delta, *grid, snap),
{
    let ghost all = names.deep_view();
    let mut out: Vec<Dropped> = Vec::new();
    assert(all.subrange(0, 0) =~= Seq::<Seq<char>>::empty());
    assert(out@.map_values(|d: Dropped| d@) =~= Seq::<DroppedView>::empty());
    for i in 0..names.len()
        invariant
            all == names.deep_view(),
            placed_ok(placed@),
            grid.wf(),
            -2 * COORD_LIMIT <= delta.x <= 2 * COORD_LIMIT,
            -2 * COORD_LIMIT <= delta.y <= 2 * COORD_LIMIT,
            out@.map_values(|d: Dropped| d@) == drops(
                placed@,
                all.subrange(0, i as int),
                delta,
                *grid,
                snap,
            ),
    {
        assert(all.subrange(0, i + 1).drop_last() =~= all.subrange(0, i as int));
        assert(all.subrange(0, i + 1).last() == names@[i as int]@);
        match find_named(placed, names[i].as_str()) {
            Some(k) => {
                assert(rect_ok(placed@[k as int].rect));
                let item_rect = placed[k].rect;
                let origin = Point::new(item_rect.x + delta.x, item_rect.y + delta.y);
                let spot = if snap {
                    let centre = Point::new(
                        origin.x + grid.metrics.cell_w / 2,
                        origin.y + grid.metrics.cell_h / 2,
                    );
                    Spot::Slot(grid.nearest_slot(centre))
                } else {
                    Spot::Free(grid.clamp(origin))
                };
                let ghost before = out@.map_values(|d: Dropped| d@);
                let drop = Dropped { name: names[i].clone(), spot };
                let ghost dv = drop@;
                out.push(drop);
                assert(out@.map_values(|d: Dropped| d@) =~= before.push(dv));
            },
            None => {},
        }
    }
    assert(all.subrange(0, all.len() as int) =~= all);
    out
}


/// A band dragged up and left is the same rectangle as one dragged down and right between
/// the same corners.
pub proof fn law_band_either_way(a: Point, b: Point)
    requires
        point_ok(a),
        point_ok(b),
    ensures
        band_rect(a, b) == band_rect(b, a),
{
}

/// A press that opened an icon does not leave half of another double-click behind: the next
/// press, wherever and whenever it lands, opens nothing.
pub proof fn law_no_third_open(
    s: SelectionView,
    placed: Seq<Placed>,
    first: Point,
    t1: u32,
    second: Point,
    t2: u32,
)
    requires
        after_press(s, placed, first, t1).1.activate is Some,
    ensures
        after_press(after_press(s, placed, first, t1).0, placed, second, t2).1.activate is None,
{
}

/// Dragging an icon past the threshold is not half of a double-click: the press that
/// follows opens nothing.
pub proof fn law_drag_disarms_double_click(
    s: SelectionView,
    placed: Seq<Placed>,
    to: Point,
    next: Point,
    time: u32,
)
    requires
        s.band is None,
        s.drag matches Some(d) && !d.moved && {
            let dx = to.x - d.press.x;
            let dy = to.y - d.press.y;
            dx * dx + dy * dy >= DRAG_THRESHOLD_SQUARED
        },
    ensures
        after_motion(s, placed, to).0.drag matches Some(d) && d.moved,
        after_press(after_motion(s, placed, to).0, placed, next, time).1.activate is None,
{
}

/// Pressing an icon that is already selected keeps the whole selection and drags all of it;
/// pressing any other icon makes it the whole selection.
pub proof fn law_press_keeps_or_replaces(s: SelectionView, placed: Seq<Placed>, point: Point, time: u32)
    requires
        topmost(placed, point) is Some,
    ensures
        ({
            let name = placed[topmost(placed, point).unwrap()].entry.name@;
            let after = after_press(s, placed, point, time).0;
            &&& s.selected.contains(name) ==> after.selected == s.selected
            &&& !s.selected.contains(name) ==> after.selected == seq![name]
            &&& after.drag matches Some(d) && d.names == after.selected && !d.moved
        }),
{
}

/// A press on an icon and a release without moving is a click: nothing lands anywhere, and
/// the selection is the icon clicked, even if it was one of a group.
pub proof fn law_click_selects_one(
    s: SelectionView,
    placed: Seq<Placed>,
    point: Point,
    time: u32,
    grid: Grid,
    snap: bool,
)
    requires
        s.band is None,
        topmost(placed, point) is Some,
    ensures
        ({
            let name = placed[topmost(placed, point).unwrap()].entry.name@;
            let pressed = after_press(s, placed, point, time).0;
            let (released, landed) = after_release(pressed, placed, grid, snap);
            &&& landed.len() == 0
            &&& released.selected == seq![name]
            &&& released.drag is None
        }),
{
}

/// Shrinking a rubber band lets go of what it no longer touches: what a band selects depends
/// on where it is now, never on what it selected before.
pub proof fn law_band_selects_afresh(
    s1: SelectionView,
    s2: SelectionView,
    placed: Seq<Placed>,
    point: Point,
)
    requires
        s1.band matches Some(b1) && b1.1 != point,
        s2.band matches Some(b2) && b2.1 != point,
        s1.band.unwrap().0 == s2.band.unwrap().0,
    ensures
        after_motion(s1, placed, point).0.selected == after_motion(s2, placed, point).0.selected,
{
}


/// A drag that outlives some of its files: pressed on an icon, moved at least the drag
/// threshold, then the desktop keeps only `present`, then released. What lands is the group
/// the press picked, less the names that went, each moved by the same offset; a drag whose
/// files all went drops nothing.
pub proof fn law_drag_drops_only_what_remains(
    s: SelectionView,
    placed: Seq<Placed>,
    grid: Grid,
    from: Point,
    time: u32,
    to: Point,
    present: Seq<Seq<char>>,
    snap: bool,
)
    requires
        s.band is None,
        topmost(placed, from) is Some,
        (to.x - from.x) * (to.x - from.x) + (to.y - from.y) * (to.y - from.y)
            >= DRAG_THRESHOLD_SQUARED,
    ensures
        ({
            let s1 = after_press(s, placed, from, time).0;
            let s2 = after_motion(s1, placed, to).0;
            let s3 = after_retain(s2, present);
            let dropped = after_release(s3, placed, grid, snap).1;
            let name = placed[topmost(placed, from).unwrap()].entry.name@;
            let group = if s.selected.contains(name) {
                s.selected
            } else {
                seq![name]
            };
            let kept = keep_present(group, present);
            dropped == if kept.len() == 0 {
                Seq::<DroppedView>::empty()
            } else {
                drops(
                    placed,
                    kept,
                    Point { x: (to.x - from.x) as i32, y: (to.y - from.y) as i32 },
                    grid,
                    snap,
                )
            }
        }),
{
}


/// No press, band or drag under way: the state between two gestures, and the one a new
/// selection starts in.
pub open spec fn idle(s: SelectionView) -> bool {
    s.band is None && s.drag is None
}

/// Whether the pointer at `p` is at least the drag threshold from `press`.
pub open spec fn far(p: Point, press: Point) -> bool {
    (p.x - press.x) * (p.x - press.x) + (p.y - press.y) * (p.y - press.y) >= DRAG_THRESHOLD_SQUARED
}

/// The selection after pointer motion through each of `moves` in turn.
pub open spec fn after_motions(s: SelectionView, placed: Seq<Placed>, moves: Seq<Point>) -> SelectionView
    decreases moves.len(),
{
    if moves.len() == 0 {
        s
    } else {
        after_motion(after_motions(s, placed, moves.drop_last()), placed, moves.last()).0
    }
}

/// Where the pointer ended up: the last of `moves`, or `start` if it never moved.
pub open spec fn last_point(start: Point, moves: Seq<Point>) -> Point {
    if moves.len() == 0 {
        start
    } else {
        moves.last()
    }
}

/// A point on no icon touches none with a band of no size.
proof fn lemma_touching_nothing(placed: Seq<Placed>, p: Point)
    requires
        topmost(placed, p) is None,
    ensures
        touching(placed, band_rect(p, p)) == Seq::<Seq<char>>::empty(),
    decreases placed.len(),
{
    if placed.len() > 0 {
        lemma_touching_nothing(placed.drop_last(), p);
    }
}

/// Pointer motion during a band keeps it a band from the same origin, ending at the last
/// point, with the selection what it touches.
proof fn lemma_motions_band(s: SelectionView, placed: Seq<Placed>, moves: Seq<Point>, origin: Point, current: Point)
    requires
        s.band == Some((origin, current)),
        s.drag is None,
        s.selected == touching(placed, band_rect(origin, current)),
    ensures
        after_motions(s, placed, moves).band == Some((origin, last_point(current, moves))),
        after_motions(s, placed, moves).drag is None,
        after_motions(s, placed, moves).selected == touching(
            placed,
            band_rect(origin, last_point(current, moves)),
        ),
    decreases moves.len(),
{
    if moves.len() > 0 {
        lemma_motions_band(s, placed, moves.drop_last(), origin, current);
    }
}

/// Pointer motion during a press on an icon keeps the same drag, now at the last point, and
/// moved once any point got the drag threshold from the press; the selection stays.
proof fn lemma_motions_drag(s: SelectionView, placed: Seq<Placed>, moves: Seq<Point>, d: DragView)
    requires
        s.band is None,
        s.drag == Some(d),
    ensures
        after_motions(s, placed, moves).band is None,
        after_motions(s, placed, moves).selected == s.selected,
        after_motions(s, placed, moves).drag matches Some(e) && e.names == d.names && e.pressed
            == d.pressed && e.press == d.press && e.current == last_point(d.current, moves)
            && e.moved == (d.moved || exists|j: int| 0 <= j < moves.len() && far(#[trigger] moves[j], d.press)),
    decreases moves.len(),
{
    if moves.len() > 0 {
        let rest = moves.drop_last();
        lemma_motions_drag(s, placed, rest, d);
        let n = moves.len() - 1;
        if exists|j: int| 0 <= j < rest.len() && far(#[trigger] rest[j], d.press) {
            let j = choose|j: int| 0 <= j < rest.len() && far(#[trigger] rest[j], d.press);
            assert(moves[j] == rest[j]);
        }
        if exists|j: int| 0 <= j < moves.len() && far(#[trigger] moves[j], d.press) {
            let j = choose|j: int| 0 <= j < moves.len() && far(#[trigger] moves[j], d.press);
            if j < n {
                assert(rest[j] == moves[j]);
            }
        }
    }
}

/// Every gesture -- a press, any pointer motion, a release -- ends where it started, with no
/// band or drag left. Pressed on bare desktop it drops nothing and leaves selected what the
/// band last touched. Pressed on an icon, once any motion got the drag threshold from the
/// press, every icon the press left selected lands moved by the offset from the press to where
/// the pointer ended, and stays selected; a press that never got that far was a click, which
/// drops nothing and narrows the selection to the pressed icon.
pub proof fn law_gesture(
    s: SelectionView,
    placed: Seq<Placed>,
    grid: Grid,
    from: Point,
    time: u32,
    moves: Seq<Point>,
    snap: bool,
)
    requires
        idle(s),
    ensures
        ({
            let s1 = after_press(s, placed, from, time).0;
            let s2 = after_motions(s1, placed, moves);
            let (s3, dropped) = after_release(s2, placed, grid, snap);
            let to = last_point(from, moves);
            &&& idle(s3)
            &&& match topmost(placed, from) {
                None => {
                    &&& dropped == Seq::<DroppedView>::empty()
                    &&& s3.selected == touching(placed, band_rect(from, to))
                },
                Some(i) => {
                    let name = placed[i].entry.name@;
                    let group = if s.selected.contains(name) {
                        s.selected
                    } else {
                        seq![name]
                    };
                    if exists|j: int| 0 <= j < moves.len() && far(#[trigger] moves[j], from) {
                        &&& dropped == drops(
                            placed,
                            group,
                            Point { x: (to.x - from.x) as i32, y: (to.y - from.y) as i32 },
                            grid,
                            snap,
                        )
                        &&& s3.selected == group
                    } else {
                        &&& dropped == Seq::<DroppedView>::empty()
                        &&& s3.selected == seq![name]
                    }
                },
            }
        }),
{
    let s1 = after_press(s, placed, from, time).0;
    match topmost(placed, from) {
        None => {
            lemma_touching_nothing(placed, from);
            lemma_motions_band(s1, placed, moves, from, from);
        },
        Some(i) => {
            lemma_motions_drag(s1, placed, moves, s1.drag.unwrap());
        },
    }
}

/// Pointer motion during a band whose selection is what it touches: the band now ends at the
/// point, the selection is recomputed from it -- so shrinking the band deselects again -- and
/// the desktop redraws exactly when the point moved.
pub proof fn law_band_motion(s: SelectionView, placed: Seq<Placed>, point: Point, origin: Point, current: Point)
    requires
        s.band == Some((origin, current)),
        s.selected == touching(placed, band_rect(origin, current)),
    ensures
        after_motion(s, placed, point).1 == (point != current),
        after_motion(s, placed, point).0.band == Some((origin, point)),
        after_motion(s, placed, point).0.selected == touching(placed, band_rect(origin, point)),
{
}

/// Pointer motion during a press on an icon: the drag follows the point, and becomes a move --
/// disarming a double-click -- once the point gets the drag threshold from the press; the
/// desktop redraws once the drag is moving.
pub proof fn law_drag_motion(s: SelectionView, placed: Seq<Placed>, point: Point, d: DragView)
    requires
        s.band is None,
        s.drag == Some(d),
    ensures
        after_motion(s, placed, point).1 == (d.moved || far(point, d.press)),
        after_motion(s, placed, point).0.drag == Some(
            DragView { current: point, moved: d.moved || far(point, d.press), ..d },
        ),
        after_motion(s, placed, point).0.selected == s.selected,
        !d.moved && far(point, d.press) ==> after_motion(s, placed, point).0.last_press is None,
{
}

} // verus!
