use wlrix_desktop::session::{parse_pid, pidfile_in};


#[test]
fn a_pidfile_is_a_bare_number() {
    assert_eq!(parse_pid("1234"), Some(1234));
    // The compositor writes a trailing newline.
    assert_eq!(parse_pid("1234\n"), Some(1234));
    assert_eq!(parse_pid("  1234  \n"), Some(1234));
}

#[test]
fn nonsense_in_the_pidfile_is_not_a_pid() {
    for text in ["", "\n", "not a pid", "12x", "-1", "3.5"] {
        assert_eq!(parse_pid(text), None, "{text:?}");
    }
}

#[test]
fn pid_one_and_zero_are_refused() {
    // 0 signals the whole process group and 1 is init; a pidfile naming either is
    // corrupt, and acting on it would be far worse than doing nothing.
    assert_eq!(parse_pid("0"), None);
    assert_eq!(parse_pid("1"), None);
}

#[test]
fn the_pidfile_sits_beside_the_compositors_log() {
    // Kept in step with the compositor by hand, so a change there that is not mirrored
    // here would make Log Out silently stop working.
    assert!(pidfile_in(Some("/run/user/1000"), "/tmp").ends_with("wlrix-compositor.pid"));
    assert!(pidfile_in(None, "/tmp").ends_with("wlrix-compositor.pid"));
}
