use wlrix_desktop::desktop_entry::DesktopEntry;
use wlrix_desktop::entries::{sort_entries, Entry, FileFacts, Kind};
use wlrix_desktop::locale::Locale;

const FILE: FileFacts = FileFacts { is_dir: false, mode: 0o644 };
const DIR: FileFacts = FileFacts { is_dir: true, mode: 0o755 };
const SCRIPT: FileFacts = FileFacts { is_dir: false, mode: 0o755 };

fn desktop(text: &str) -> Option<DesktopEntry> {
    DesktopEntry::parse_in(text, &Locale::untranslated())
}

fn at(name: &str, facts: FileFacts, text: Option<&str>) -> Entry {
    Entry::at(&format!("/desktop/{name}"), Some(facts), text.and_then(desktop)).expect("an entry")
}

#[test]
fn each_kind_of_file_is_told_apart() {
    assert_eq!(at("folder", DIR, None).kind, Kind::Directory);
    assert_eq!(at("notes.txt", FILE, None).kind, Kind::Plain);
    assert_eq!(at("app.desktop", FILE, Some("[Desktop Entry]")).kind, Kind::Launcher);
    assert_eq!(at("run.sh", SCRIPT, None).kind, Kind::Executable);
    // A directory that happens to be named like a launcher is still a directory.
    assert_eq!(at("odd.desktop", DIR, None).kind, Kind::Directory);
}

#[test]
fn a_launcher_takes_its_name_as_its_label() {
    let mpv = at(
        "mpv.desktop",
        FILE,
        Some("[Desktop Entry]\nType=Application\nName=mpv Media Player\nExec=mpv\n"),
    );
    assert_eq!(mpv.label, "mpv Media Player");
    assert_eq!(mpv.name, "mpv.desktop", "the identity stays the file name");
    let bare = at("bare.desktop", FILE, Some("[Desktop Entry]\nType=Application\nExec=bare\n"));
    assert_eq!(bare.label, "bare.desktop");
    assert_eq!(at("notes.txt", FILE, None).label, "notes.txt");
}

#[test]
fn a_launcher_that_does_not_parse_keeps_its_file_name() {
    let junk = at("junk.desktop", FILE, Some("not a desktop file at all\n"));
    assert_eq!(junk.label, "junk.desktop");
    assert!(junk.launcher.is_none());
}

#[test]
fn a_launcher_knows_whether_it_is_an_application() {
    let app = at("foot.desktop", FILE, Some("[Desktop Entry]\nType=Application\nExec=foot\nIcon=foot\n"));
    let launcher = app.launcher.expect("a launcher");
    assert!(launcher.is_application);
    assert_eq!(launcher.icon.as_deref(), Some("foot"));
    assert!(launcher.identities.contains(&"foot".to_owned()));
    let link = at("site.desktop", FILE, Some("[Desktop Entry]\nType=Link\nURL=https://example.invalid\n"));
    assert!(!link.launcher.expect("a launcher").is_application);
}

#[test]
fn dotfiles_and_unreadable_paths_are_no_entry() {
    assert!(Entry::at("/desktop/.hidden", Some(FILE), None).is_none());
    assert!(Entry::at("/desktop/dangling", None, None).is_none());
    assert!(Entry::at("/", Some(DIR), None).is_none());
}

#[test]
fn entries_sort_by_label_then_file_name() {
    let entries = vec![
        at("zebra", FILE, None),
        at("z.desktop", FILE, Some("[Desktop Entry]\nType=Application\nName=Apple\nExec=x\n")),
        at("b.desktop", FILE, Some("[Desktop Entry]\nType=Application\nName=Same\nExec=x\n")),
        at("mango", FILE, None),
        at("a.desktop", FILE, Some("[Desktop Entry]\nType=Application\nName=Same\nExec=x\n")),
    ];
    let names: Vec<String> = sort_entries(entries).into_iter().map(|e| e.name).collect();
    assert_eq!(names, ["z.desktop", "a.desktop", "b.desktop", "mango", "zebra"]);
}
