use wlrix_desktop::entries::{Entry, Kind};
use wlrix_desktop::layout::{Grid, Metrics, Placed, Point, Rect, Spot};
use wlrix_desktop::menu::{Action, Menu};
use wlrix_desktop::pointer::{perform, pointer_event, Effect, PointerEvent, Reaction, Task};
use wlrix_desktop::select::Selection;
use wlrix_desktop::state::State;

fn grid() -> Grid {
    Grid::new(Rect::new(0, 0, 1280, 800), Metrics::default())
}

fn area() -> Rect {
    Rect::new(0, 0, 1280, 800)
}

fn placed(names: &[&str]) -> Vec<Placed> {
    let grid = grid();
    names
        .iter()
        .enumerate()
        .map(|(index, name)| Placed {
            entry: Entry {
                path: format!("/desktop/{name}"),
                name: (*name).to_owned(),
                label: (*name).to_owned(),
                kind: Kind::Plain,
                launcher: None,
            },
            spot: Spot::Slot(index as i32),
            rect: grid.slot_rect(index as i32),
        })
        .collect()
}

fn centre(item: &Placed) -> Point {
    Point::new(item.rect.x + item.rect.w / 2, item.rect.y + item.rect.h / 2)
}

struct Desk {
    menu: Option<Menu>,
    selection: Selection,
    state: State,
    placed: Vec<Placed>,
}

impl Desk {
    fn new(names: &[&str]) -> Self {
        Desk { menu: None, selection: Selection::default(), state: State::default(), placed: placed(names) }
    }

    fn send(&mut self, event: PointerEvent) -> Reaction {
        pointer_event(&mut self.menu, &mut self.selection, &mut self.state, &self.placed, &grid(), false, area(), event)
    }
}

#[test]
fn moving_over_an_icon_hovers_it() {
    let mut desk = Desk::new(&["a"]);
    let at = centre(&desk.placed[0]);
    assert_eq!(desk.send(PointerEvent::Motion(at)), Reaction { redraw: true, effect: Effect::Nothing });
    assert_eq!(desk.selection.hovered(), Some("a"));
    assert!(!desk.send(PointerEvent::Motion(at)).redraw, "the same icon again changes nothing");
    assert!(desk.send(PointerEvent::Leave).redraw);
    assert_eq!(desk.selection.hovered(), None);
}

#[test]
fn a_double_click_asks_for_the_icon_to_open() {
    let mut desk = Desk::new(&["a"]);
    let at = centre(&desk.placed[0]);
    assert_eq!(desk.send(PointerEvent::PressLeft(at, 1_000)).effect, Effect::Nothing);
    desk.send(PointerEvent::ReleaseLeft);
    assert_eq!(desk.send(PointerEvent::PressLeft(at, 1_100)).effect, Effect::Activate("a".to_owned()));
}

#[test]
fn a_right_click_posts_the_menu_and_it_owns_the_pointer() {
    let mut desk = Desk::new(&["a"]);
    let at = centre(&desk.placed[0]);
    assert!(desk.send(PointerEvent::PressRight(Point::new(40, 40))).redraw);
    let menu = desk.menu.clone().expect("a menu");
    assert_eq!(menu.panel().x, 40);
    // Hovering the icon under the menu's reach does nothing to the desktop.
    desk.send(PointerEvent::Motion(at));
    assert_eq!(desk.selection.hovered(), None);
    // A press away from the menu puts it away and reaches nothing else.
    let reaction = desk.send(PointerEvent::PressLeft(at, 5_000));
    assert_eq!(reaction, Reaction { redraw: true, effect: Effect::Nothing });
    assert!(desk.menu.is_none());
    assert!(desk.selection.selected().is_empty());
}

#[test]
fn choosing_a_menu_row_asks_for_its_action() {
    let mut desk = Desk::new(&["a"]);
    desk.send(PointerEvent::PressRight(Point::new(40, 40)));
    let menu = desk.menu.clone().expect("a menu");
    let index = menu.entries.iter().position(|entry| entry.action() == Some(Action::LogOut)).expect("log out");
    let row = menu.row(index);
    let reaction = desk.send(PointerEvent::PressLeft(Point::new(row.x + 5, row.y + row.h / 2), 9_000));
    assert_eq!(reaction.effect, Effect::Perform(Action::LogOut));
    assert!(desk.menu.is_none());
}

#[test]
fn a_drop_is_remembered_and_asks_for_a_relayout() {
    let mut desk = Desk::new(&["a"]);
    let start = centre(&desk.placed[0]);
    desk.send(PointerEvent::PressLeft(start, 1_000));
    desk.send(PointerEvent::Motion(Point::new(start.x - 40, start.y + 40)));
    assert_eq!(desk.send(PointerEvent::ReleaseLeft).effect, Effect::Relayout);
    let expected = Point::new(desk.placed[0].rect.x - 40, desk.placed[0].rect.y + 40);
    assert_eq!(desk.state.spot("a"), Some(Spot::Free(expected)));
    assert!(desk.state.is_dirty());
}

#[test]
fn a_menu_choice_says_what_is_left_to_do() {
    let mut selection = Selection::default();
    let names = vec!["a".to_owned(), "b".to_owned()];
    assert_eq!(perform(Action::Open, &mut selection, &names), Task::Open(Vec::new()));
    assert_eq!(perform(Action::SelectAll, &mut selection, &names), Task::Redraw);
    assert_eq!(selection.selected(), ["a", "b"]);
    assert_eq!(perform(Action::Remove, &mut selection, &names), Task::Remove(names.clone()));
    assert_eq!(perform(Action::LogOut, &mut selection, &names), Task::LogOut);
    assert_eq!(perform(Action::MakeCopy, &mut selection, &names), Task::Nothing);
}
