use wlrix_desktop::canvas::Rect;
use wlrix_desktop::label::{label_layout, label_lines, wrap, LinePlace, LABEL_LINES};

/// A stand-in for the label font: every character 7px wide, except the wide CJK ones at 12px.
fn width(text: &str) -> i32 {
    text.chars().map(|c| if u32::from(c) >= 0x3000 { 12 } else { 7 }).sum()
}

#[test]
fn a_short_name_stays_on_one_line() {
    assert_eq!(wrap(&width, "a.txt", 200, LABEL_LINES), vec!["a.txt".to_owned()]);
}

#[test]
fn a_name_too_long_for_one_line_is_cut_with_an_ellipsis() {
    // When only one line fits, the label must say it was cut rather than just stopping.
    let lines = wrap(&width, "スクリーンショット.png", 80, 1);
    assert_eq!(lines.len(), 1);
    assert!(lines[0].ends_with('…'), "a one-line cut should be marked: {lines:?}");
    assert!(width(&lines[0]) <= 80);
}

#[test]
fn a_long_name_wraps_and_is_cut() {
    let lines = wrap(&width, &"x".repeat(200), 80, LABEL_LINES);
    assert!(lines.len() <= LABEL_LINES, "wrapped to {} lines", lines.len());
    assert!(
        lines.last().is_some_and(|line| line.ends_with('…')),
        "a cut label should say so: {lines:?}"
    );
    for line in &lines {
        assert!(width(line) <= 80, "line overflows its cell: {line:?}");
    }
}

#[test]
fn a_multibyte_name_is_never_split_mid_character() {
    let lines = wrap(&width, "スクリーンショット-2026-07-30.png", 60, LABEL_LINES);
    for line in &lines {
        assert!(line.chars().count() > 0);
    }
}

#[test]
fn a_name_breaks_by_character_and_keeps_every_character() {
    // 40px holds five 7px characters.
    assert_eq!(wrap(&width, "abcdefg", 40, 2), ["abcde", "fg"]);
    assert_eq!(wrap(&width, "abcdefghij", 40, 2), ["abcde", "fghij"]);
}

#[test]
fn the_last_line_is_cut_back_until_the_ellipsis_fits() {
    // Two full lines and text left over: `l-rep` plus the ellipsis is 42px, over 40, so one
    // more character goes.
    assert_eq!(wrap(&width, "annual-report-final.txt", 40, 2), ["annua", "l-re…"]);
}

#[test]
fn a_character_wider_than_the_label_still_gets_a_line() {
    // 12px into 10px: it cannot be broken, so it stands alone rather than vanishing.
    assert_eq!(wrap(&width, "ス", 10, 2), ["ス"]);
    assert_eq!(wrap(&width, "スス", 10, 2), ["ス", "ス"]);
    // And with no room for even the ellipsis's company, the cut line is the ellipsis alone.
    assert_eq!(wrap(&width, "ススス", 10, 2), ["ス", "…"]);
}

#[test]
fn no_room_means_no_lines() {
    assert!(wrap(&width, "a.txt", 0, 2).is_empty());
    assert!(wrap(&width, "a.txt", -5, 2).is_empty());
    assert!(wrap(&width, "a.txt", 200, 0).is_empty());
}

#[test]
fn the_label_takes_as_many_lines_as_fit_up_to_two() {
    assert_eq!(label_lines(40, 16), 2);
    assert_eq!(label_lines(32, 16), 2);
    assert_eq!(label_lines(31, 16), 1);
    assert_eq!(label_lines(8, 16), 1);
    assert_eq!(label_lines(100, 0), 1);
}

#[test]
fn label_lines_are_centred_one_under_the_other() {
    let layout = label_layout(Rect::new(10, 100, 96, 36), 16, 12, &[60, 30]).expect("room");
    // The highlight is as wide as the widest line plus padding, as tall as both lines.
    assert_eq!(layout.highlight, Rect::new(26, 100, 64, 32));
    assert_eq!(
        layout.lines,
        vec![LinePlace { x: 28, baseline: 112 }, LinePlace { x: 43, baseline: 128 }]
    );
}

#[test]
fn a_line_that_would_spill_below_is_not_drawn() {
    let layout = label_layout(Rect::new(10, 100, 96, 20), 16, 12, &[60, 30]).expect("room");
    assert_eq!(layout.lines, vec![LinePlace { x: 28, baseline: 112 }]);
    // The highlight stops at the area's bottom too.
    assert_eq!(layout.highlight.h, 20);
}

#[test]
fn a_line_wider_than_the_area_is_still_centred() {
    let layout = label_layout(Rect::new(10, 100, 96, 36), 16, 12, &[100]).expect("room");
    assert_eq!(layout.lines, vec![LinePlace { x: 8, baseline: 112 }]);
    assert_eq!(layout.highlight, Rect::new(6, 100, 104, 16));
}

#[test]
fn an_area_with_no_room_lays_out_nothing() {
    assert!(label_layout(Rect::new(10, 100, 0, 36), 16, 12, &[60]).is_none());
    assert!(label_layout(Rect::new(10, 100, 96, 0), 16, 12, &[60]).is_none());
}
