use wlrix_desktop::xdg::parse_user_dirs;


fn home() -> String {
    "/home/tester".to_owned()
}

#[test]
fn home_relative_paths_are_expanded() {
    let text = "XDG_DESKTOP_DIR=\"$HOME/Desktop\"\n";
    assert_eq!(
        parse_user_dirs(text, "XDG_DESKTOP_DIR", &home()),
        Some("/home/tester/Desktop".to_owned())
    );
}

#[test]
fn absolute_paths_are_taken_as_they_are() {
    let text = "XDG_DESKTOP_DIR=\"/srv/shared/desk\"\n";
    assert_eq!(
        parse_user_dirs(text, "XDG_DESKTOP_DIR", &home()),
        Some("/srv/shared/desk".to_owned())
    );
}

#[test]
fn a_localized_directory_name_survives() {
    // The dev machine runs a Japanese locale, where xdg-user-dirs writes exactly this.
    let text = "XDG_DESKTOP_DIR=\"$HOME/デスクトップ\"\n";
    assert_eq!(
        parse_user_dirs(text, "XDG_DESKTOP_DIR", &home()),
        Some("/home/tester/デスクトップ".to_owned())
    );
}

#[test]
fn other_keys_and_comments_are_ignored() {
    let text = "# Created by xdg-user-dirs-update\n\
                XDG_DOWNLOAD_DIR=\"$HOME/Downloads\"\n\
                XDG_DESKTOP_DIR=\"$HOME/Desktop\"\n\
                XDG_MUSIC_DIR=\"$HOME/Music\"\n";
    assert_eq!(
        parse_user_dirs(text, "XDG_DESKTOP_DIR", &home()),
        Some("/home/tester/Desktop".to_owned())
    );
}

#[test]
fn the_last_assignment_wins() {
    // What a shell sourcing the file would end up with.
    let text = "XDG_DESKTOP_DIR=\"$HOME/first\"\nXDG_DESKTOP_DIR=\"$HOME/second\"\n";
    assert_eq!(
        parse_user_dirs(text, "XDG_DESKTOP_DIR", &home()),
        Some("/home/tester/second".to_owned())
    );
}

#[test]
fn a_value_we_cannot_read_is_no_answer_at_all() {
    // Anything needing real shell expansion is refused rather than guessed at, so the
    // caller falls back to ~/Desktop instead of watching the wrong directory.
    for text in [
        "XDG_DESKTOP_DIR=\"${HOME}/Desktop\"\n",
        "XDG_DESKTOP_DIR=\"$OTHER/Desktop\"\n",
        "XDG_DESKTOP_DIR=\"\"\n",
        "XDG_DESKTOP_DIR=\"relative/path\"\n",
    ] {
        assert_eq!(
            parse_user_dirs(text, "XDG_DESKTOP_DIR", &home()),
            None,
            "{text}"
        );
    }
}
