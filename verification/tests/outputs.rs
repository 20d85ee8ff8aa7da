use wlrix_desktop::layout::{Metrics, Rect};
use wlrix_desktop::outputs::{pick_output, surface_grid, OutputInfo};

fn output(name: &str, position: (i32, i32)) -> OutputInfo {
    OutputInfo { name: Some(name.to_owned()), position: Some(position), going: false }
}

#[test]
fn the_named_output_wins() {
    let outputs = [output("DP-1", (0, 0)), output("HDMI-A-1", (1920, 0))];
    assert_eq!(pick_output(Some("HDMI-A-1"), &outputs), (Some(1), false));
}

#[test]
fn a_missing_name_falls_back_to_the_origin_and_says_so() {
    let outputs = [output("HDMI-A-1", (1920, 0)), output("DP-1", (0, 0))];
    assert_eq!(pick_output(Some("DP-9"), &outputs), (Some(1), true));
    assert_eq!(pick_output(None, &outputs), (Some(1), false));
}

#[test]
fn with_nothing_at_the_origin_the_first_is_used() {
    let outputs = [output("A", (10, 0)), output("B", (20, 0))];
    assert_eq!(pick_output(None, &outputs), (Some(0), false));
    assert_eq!(pick_output(None, &[]), (None, false));
}

#[test]
fn an_output_on_its_way_out_is_never_chosen() {
    let mut leaving = output("DP-1", (0, 0));
    leaving.going = true;
    let outputs = [leaving, output("DP-2", (1920, 0))];
    assert_eq!(pick_output(Some("DP-1"), &outputs), (Some(1), true));
    assert_eq!(pick_output(None, &outputs[..1]), (None, false));
}

#[test]
fn a_surface_not_yet_sized_still_has_a_pixel() {
    let grid = surface_grid(0, 0, Metrics::default());
    assert_eq!(grid.area, Rect::new(0, 0, 1, 1));
    assert_eq!(surface_grid(1280, 800, Metrics::default()).area, Rect::new(0, 0, 1280, 800));
}
