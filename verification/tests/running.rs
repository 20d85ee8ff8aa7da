use wlrix_desktop::desktop_entry::DesktopEntry;
use wlrix_desktop::locale::Locale;
use wlrix_desktop::running::{identities, Running};

fn entry(text: &str) -> DesktopEntry {
    DesktopEntry::parse_in(text, &Locale::untranslated()).expect("should parse")
}

fn path(name: &str) -> String {
    format!("/desktop/{name}")
}

#[test]
fn startup_wm_class_is_preferred() {
    let entry =
        entry("[Desktop Entry]\nType=Application\nExec=alacritty\nStartupWMClass=Alacritty\n");
    let names = identities(&entry, &path("Alacritty.desktop"));
    assert_eq!(names.first().map(String::as_str), Some("alacritty"));
}

#[test]
fn the_file_basename_and_exec_are_the_fallbacks() {
    // No StartupWMClass, which is the common case: 176 of 193 files on this machine.
    let entry = entry("[Desktop Entry]\nType=Application\nExec=/usr/bin/foot --title x\n");
    let names = identities(&entry, &path("org.example.Foot.desktop"));
    assert!(names.contains(&"org.example.foot".to_string()), "{names:?}");
    assert!(names.contains(&"foot".to_string()), "{names:?}");
}

#[test]
fn identities_are_lowercased_and_deduplicated() {
    let entry =
        entry("[Desktop Entry]\nType=Application\nExec=Alacritty\nStartupWMClass=ALACRITTY\n");
    let names = identities(&entry, &path("alacritty.desktop"));
    assert_eq!(names, ["alacritty"], "all three names are the same one");
}

#[test]
fn an_entry_with_nothing_to_go_on_yields_only_its_filename() {
    let entry = entry("[Desktop Entry]\nType=Application\n");
    assert_eq!(identities(&entry, &path("thing.desktop")), ["thing"]);
}

#[test]
fn a_matching_window_counts_as_running() {
    let mut running = Running::default();
    assert!(!running.any(&["alacritty".to_string()]));

    running.window(1, "Alacritty");
    assert!(
        running.any(&["alacritty".to_string()]),
        "case should not matter"
    );
    assert!(!running.any(&["firefox".to_string()]));
}

#[test]
fn closing_the_last_window_stops_it_counting() {
    let mut running = Running::default();
    running.window(1, "alacritty");
    running.window(2, "alacritty");

    // Two windows of the same application: closing one is not closing the application.
    running.closed(1);
    assert!(running.any(&["alacritty".to_string()]));
    running.closed(2);
    assert!(!running.any(&["alacritty".to_string()]));
}

#[test]
fn any_of_the_identities_is_enough() {
    // The window used the Exec name while the file is named something else entirely.
    let entry = entry("[Desktop Entry]\nType=Application\nExec=foot\n");
    let names = identities(&entry, &path("org.example.Terminal.desktop"));

    let mut running = Running::default();
    running.window(1, "foot");
    assert!(running.any(&names));
}

#[test]
fn an_unrelated_window_does_not_light_up_a_launcher() {
    let entry = entry("[Desktop Entry]\nType=Application\nExec=htop\n");
    let names = identities(&entry, &path("htop.desktop"));

    let mut running = Running::default();
    running.window(1, "org.mozilla.firefox");
    assert!(!running.any(&names));
}

#[test]
fn closing_a_window_tracks_one_fewer() {
    let mut running = Running::default();
    running.window(1, "alacritty");
    running.window(2, "foot");
    assert_eq!(running.len(), 2);
    running.closed(1);
    assert_eq!(running.len(), 1);
    // A window that was never open changes nothing.
    running.closed(7);
    assert_eq!(running.len(), 1);
    assert!(running.any(&["foot".to_string()]));
    assert!(!running.any(&["alacritty".to_string()]));
}
