use wlrix_desktop::entries::{Entry, Kind};
use wlrix_desktop::layout::{arrange, Grid, Metrics, Point, Rect, Spot};


/// A 1280x800 screen with the default metrics: 8 rows, 12 columns.
fn grid() -> Grid {
    Grid::new(Rect::new(0, 0, 1280, 800), Metrics::default())
}

fn entry(name: &str) -> Entry {
    Entry {
        path: format!("/desktop/{name}"),
        name: name.to_owned(),
        label: name.to_owned(),
        kind: Kind::Plain,
        launcher: None,
    }
}

#[test]
fn the_first_cell_is_the_top_right_corner() {
    let grid = grid();
    let first = grid.slot_rect(0);
    let metrics = grid.metrics;
    assert_eq!(first.y, metrics.margin, "should start at the top");
    assert_eq!(
        first.x + first.w,
        grid.area.w - metrics.margin,
        "should sit against the right margin"
    );
}

#[test]
fn cells_fill_downward_before_stepping_left() {
    let grid = grid();
    let first = grid.slot_rect(0);
    let second = grid.slot_rect(1);
    // Down first: same column, lower.
    assert_eq!(second.x, first.x);
    assert!(
        second.y > first.y,
        "the second cell should be below the first"
    );

    // Then leftward, once the column is full.
    let next_column = grid.slot_rect(grid.rows());
    assert_eq!(
        next_column.y, first.y,
        "a new column starts back at the top"
    );
    assert!(
        next_column.x < first.x,
        "a new column should be to the *left*, not the right"
    );
}

#[test]
fn columns_step_by_a_whole_cell_plus_the_gap() {
    let grid = grid();
    let first = grid.slot_rect(0);
    let second_column = grid.slot_rect(grid.rows());
    assert_eq!(
        first.x - second_column.x,
        grid.metrics.cell_w + grid.metrics.gap
    );
}

#[test]
fn every_cell_stays_inside_the_area() {
    let grid = grid();
    for index in 0..grid.capacity() {
        let rect = grid.slot_rect(index);
        assert!(rect.x >= grid.area.x, "cell {index} runs off the left");
        assert!(rect.y >= grid.area.y, "cell {index} runs off the top");
        assert!(
            rect.x + rect.w <= grid.area.x + grid.area.w,
            "cell {index} runs off the right"
        );
        assert!(
            rect.y + rect.h <= grid.area.y + grid.area.h,
            "cell {index} runs off the bottom"
        );
    }
}

#[test]
fn slot_at_is_the_inverse_of_slot_rect() {
    let grid = grid();
    for index in 0..grid.capacity() {
        let rect = grid.slot_rect(index);
        let middle = Point::new(rect.x + rect.w / 2, rect.y + rect.h / 2);
        assert_eq!(grid.slot_at(middle), Some(index), "cell {index}");
    }
}

#[test]
fn gaps_and_margins_belong_to_no_cell() {
    let grid = grid();
    // Hard against the right edge, outside the margin.
    assert_eq!(grid.slot_at(Point::new(grid.area.w - 1, 400)), None);
    // The top margin.
    assert_eq!(grid.slot_at(Point::new(grid.area.w - 40, 0)), None);
    // Between the first two rows.
    let first = grid.slot_rect(0);
    let between = Point::new(first.x + 1, first.y + first.h + grid.metrics.gap / 2);
    assert_eq!(grid.slot_at(between), None);
}

#[test]
fn a_short_screen_still_has_one_row() {
    // Shorter than a single cell: the grid must not divide by zero or vanish.
    let grid = Grid::new(Rect::new(0, 0, 1280, 20), Metrics::default());
    assert_eq!(grid.rows(), 1);
    assert!(grid.capacity() >= 1);
}

#[test]
fn nearest_slot_always_answers() {
    let grid = grid();
    // Far off every edge, including negative.
    for point in [
        Point::new(-500, -500),
        Point::new(5000, 5000),
        Point::new(0, 400),
    ] {
        let index = grid.nearest_slot(point);
        assert!(
            (0..grid.capacity()).contains(&index),
            "{point:?} snapped to {index}, outside 0..{}",
            grid.capacity()
        );
    }
}

#[test]
fn new_entries_take_the_first_free_cells_in_order() {
    let grid = grid();
    let entries = [entry("apple"), entry("mango"), entry("zebra")];
    let placed = arrange(&grid, &entries, &|_| None);
    assert_eq!(placed[0].spot, Spot::Slot(0));
    assert_eq!(placed[1].spot, Spot::Slot(1));
    assert_eq!(placed[2].spot, Spot::Slot(2));
}

#[test]
fn a_remembered_slot_is_kept_and_others_flow_around_it() {
    let grid = grid();
    let entries = [entry("apple"), entry("mango"), entry("zebra")];
    // `mango` was left in cell 0; the others must not take it.
    let placed = arrange(&grid, &entries, &|name| {
        (name == "mango").then_some(Spot::Slot(0))
    });
    assert_eq!(placed[1].spot, Spot::Slot(0), "mango should keep its cell");
    assert_eq!(placed[0].spot, Spot::Slot(1));
    assert_eq!(placed[2].spot, Spot::Slot(2));
}

#[test]
fn a_slot_the_screen_no_longer_has_is_rehomed() {
    // Plugging into a smaller monitor: a remembered cell past the end would otherwise be
    // drawn off the edge, where it could never be clicked back.
    let small = Grid::new(Rect::new(0, 0, 400, 300), Metrics::default());
    let entries = [entry("a")];
    let placed = arrange(&small, &entries, &|_| Some(Spot::Slot(999)));
    let Spot::Slot(index) = placed[0].spot else {
        panic!("should still be slotted");
    };
    assert!(index < small.capacity(), "slot {index} is off the grid");
    let rect = placed[0].rect;
    assert!(rect.x >= small.area.x, "icon runs off the left edge");
    assert!(rect.y + rect.h <= small.area.y + small.area.h);
}

#[test]
fn a_file_that_comes_back_returns_to_its_cell() {
    // Deleting and recreating a file must not shuffle the desktop.
    let grid = grid();
    let remembered = |name: &str| (name == "zebra").then_some(Spot::Slot(7));
    let before = arrange(&grid, &[entry("apple"), entry("zebra")], &remembered);
    let after = arrange(&grid, &[entry("apple"), entry("zebra")], &remembered);
    assert_eq!(before[1].spot, Spot::Slot(7));
    assert_eq!(before, after);
}

#[test]
fn two_entries_cannot_hold_the_same_cell() {
    let grid = grid();
    let entries = [entry("apple"), entry("mango")];
    // Both remember cell 3 -- which happens when the screen shrinks and two slots
    // collapse onto one. The first keeps it, the second is rehomed.
    let placed = arrange(&grid, &entries, &|_| Some(Spot::Slot(3)));
    assert_eq!(placed[0].spot, Spot::Slot(3));
    assert_ne!(placed[1].spot, Spot::Slot(3));
}

#[test]
fn a_free_position_is_clamped_onto_the_screen() {
    let grid = grid();
    let entries = [entry("apple")];
    // Left where the screen used to be bigger.
    let placed = arrange(&grid, &entries, &|_| {
        Some(Spot::Free(Point::new(5000, 5000)))
    });
    let Spot::Free(point) = placed[0].spot else {
        panic!("should still be freely placed");
    };
    assert!(point.x + grid.metrics.cell_w <= grid.area.x + grid.area.w);
    assert!(point.y + grid.metrics.cell_h <= grid.area.y + grid.area.h);
}

#[test]
fn with_no_gap_every_pixel_of_a_cell_finds_it() {
    // 200x200, 50px cells, no margin, no gap: 4 rows and 4 columns that touch.
    let metrics = Metrics { icon: 32, cell_w: 50, cell_h: 50, gap: 0, margin: 0 };
    let grid = Grid::new(Rect::new(0, 0, 200, 200), metrics);
    // Cell 0 is (150, 0, 50, 50): its leftmost column and its top row both belong to it.
    assert_eq!(grid.slot_rect(0), Rect::new(150, 0, 50, 50));
    assert_eq!(grid.slot_at(Point::new(150, 10)), Some(0));
    assert_eq!(grid.slot_at(Point::new(199, 0)), Some(0));
    assert_eq!(grid.slot_at(Point::new(150, 49)), Some(0));
    // One pixel further left is the next column over, which starts at index 4.
    assert_eq!(grid.slot_at(Point::new(149, 10)), Some(4));
    assert_eq!(grid.slot_at(Point::new(150, 50)), Some(1));
    // Past the right edge is no cell.
    assert_eq!(grid.slot_at(Point::new(200, 10)), None);
    for index in 0..grid.capacity() {
        let rect = grid.slot_rect(index);
        for (dx, dy) in [(0, 0), (rect.w - 1, 0), (0, rect.h - 1), (rect.w - 1, rect.h - 1)] {
            let corner = Point::new(rect.x + dx, rect.y + dy);
            assert_eq!(grid.slot_at(corner), Some(index), "cell {index} at {corner:?}");
            assert_eq!(grid.nearest_slot(corner), index, "cell {index} at {corner:?}");
        }
    }
}

#[test]
fn a_point_inside_a_cell_is_nearest_that_cell() {
    let grid = grid();
    // Cell 0 is (1172, 12, 96, 104).
    assert_eq!(grid.nearest_slot(Point::new(1220, 100)), 0);
    assert_eq!(grid.nearest_slot(Point::new(1172, 115)), 0);
    assert_eq!(grid.nearest_slot(Point::new(1267, 12)), 0);
    for index in 0..grid.capacity() {
        let rect = grid.slot_rect(index);
        for (dx, dy) in [(0, 0), (rect.w - 1, 0), (0, rect.h - 1), (rect.w - 1, rect.h - 1)] {
            let corner = Point::new(rect.x + dx, rect.y + dy);
            assert_eq!(grid.nearest_slot(corner), index, "cell {index} at {corner:?}");
        }
    }
}

#[test]
fn a_point_in_a_gap_snaps_to_the_nearer_cell() {
    let grid = grid();
    // Between cell 0 (y 12..116) and cell 1 (y 124..228): 117 is nearer cell 0's centre
    // (64) than cell 1's (176), 123 nearer cell 1's.
    assert_eq!(grid.nearest_slot(Point::new(1220, 117)), 0);
    assert_eq!(grid.nearest_slot(Point::new(1220, 123)), 1);
    // Far off the top-right corner, the top-right cell.
    assert_eq!(grid.nearest_slot(Point::new(5000, -500)), 0);
}

#[test]
fn a_negative_remembered_slot_is_rehomed() {
    let grid = grid();
    let entries = [entry("apple"), entry("mango")];
    let placed = arrange(&grid, &entries, &|name| {
        (name == "apple").then_some(Spot::Slot(-1))
    });
    // `-1` is no cell of any grid, so apple takes the first free one like a new file.
    assert_eq!(placed[0].spot, Spot::Slot(0));
    assert_eq!(placed[0].rect, grid.slot_rect(0));
    assert_eq!(placed[1].spot, Spot::Slot(1));
}
