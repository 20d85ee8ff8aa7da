use wlrix_desktop::config::Config;
use wlrix_desktop::desktop_entry::DesktopEntry;
use wlrix_desktop::entries::{Entry, Kind};
use wlrix_desktop::locale::Locale;
use wlrix_desktop::open::{known_terminals, launcher_plan, plan, terminal_from, LauncherFile, Plan};

fn file(body: &str, executable: bool) -> LauncherFile {
    LauncherFile {
        entry: DesktopEntry::parse_in(body, &Locale::untranslated()),
        executable,
        try_exec_installed: true,
        terminal: None,
    }
}

fn entry(path: &str, kind: Kind) -> Entry {
    let name = path.rsplit('/').next().unwrap_or(path).to_owned();
    Entry { path: path.to_owned(), label: name.clone(), name, kind, launcher: None }
}

#[test]
fn a_desktop_file_without_the_execute_bit_is_refused_and_says_why() {
    let launcher = file("[Desktop Entry]\nType=Application\nName=Innocent\nExec=/bin/true\n", false);
    let why = launcher_plan("/d/evil.desktop", &Config::default(), &launcher).expect_err("should refuse");
    assert!(why.contains("not executable"), "{why}");
    assert!(why.contains("chmod"), "should say how to allow it: {why}");
}

#[test]
fn an_executable_desktop_file_runs_its_exec_line_unshelled() {
    let launcher = file("[Desktop Entry]\nType=Application\nName=Shelly\nExec=/bin/true > /tmp/x\n", true);
    let plan = launcher_plan("/d/shell.desktop", &Config::default(), &launcher).expect("should run");
    assert_eq!(plan, Plan { argv: vec!["/bin/true".into(), ">".into(), "/tmp/x".into()], directory: None });
}

#[test]
fn a_broken_desktop_file_is_refused_by_name() {
    let launcher = file("not a desktop file at all\n", true);
    let why = launcher_plan("/d/broken.desktop", &Config::default(), &launcher).expect_err("should refuse");
    assert!(why.contains("broken.desktop"), "{why}");
}

#[test]
fn a_launcher_runs_in_its_configured_path() {
    let launcher = file("[Desktop Entry]\nType=Application\nName=Touch\nPath=/work\nExec=/usr/bin/touch here\n", true);
    let plan = launcher_plan("/d/cwd.desktop", &Config::default(), &launcher).expect("should run");
    assert_eq!(plan.directory.as_deref(), Some("/work"));
    assert_eq!(plan.argv, ["/usr/bin/touch", "here"]);
}

#[test]
fn a_plain_file_goes_to_the_configured_opener() {
    let opener = Config { open: vec!["/usr/bin/touch".to_owned(), "/tmp/opened".to_owned()], ..Config::default() };
    let plan = plan(&entry("/d/notes.txt", Kind::Plain), &opener, &file("", false)).expect("should run");
    assert_eq!(plan.argv, ["/usr/bin/touch", "/tmp/opened", "/d/notes.txt"]);
    let default = plan_default("/d/notes.txt");
    assert_eq!(default.argv, ["xdg-open", "/d/notes.txt"]);
}

fn plan_default(path: &str) -> Plan {
    plan(&entry(path, Kind::Plain), &Config::default(), &file("", false)).expect("should run")
}

#[test]
fn a_link_entry_opens_its_url_without_needing_the_execute_bit() {
    let launcher = file("[Desktop Entry]\nType=Link\nName=Site\nURL=https://example.invalid/\n", false);
    let plan = launcher_plan("/d/site.desktop", &Config::default(), &launcher).expect("should open");
    assert_eq!(plan.argv, ["xdg-open", "https://example.invalid/"]);
}

#[test]
fn a_configured_terminal_wins() {
    let config = Config { terminal: vec!["myterm".to_owned(), "--run".to_owned()], ..Config::default() };
    assert_eq!(
        terminal_from(&config, true, Some("other"), &[true; 7]),
        Some(vec!["myterm".to_owned(), "--run".to_owned()])
    );
}

#[test]
fn the_terminal_is_worked_out_in_order() {
    let config = Config::default();
    assert_eq!(terminal_from(&config, true, Some("other"), &[true; 7]), Some(vec!["xdg-terminal-exec".to_owned()]));
    assert_eq!(terminal_from(&config, false, Some("other"), &[true; 7]), Some(vec!["other".to_owned(), "-e".to_owned()]));
    assert_eq!(
        terminal_from(&config, false, None, &[false, true, true, false, false, false, false]),
        Some(vec!["foot".to_owned(), "-e".to_owned()])
    );
    assert_eq!(terminal_from(&config, false, Some(""), &[false; 7]), None);
    assert_eq!(known_terminals().len(), 7);
}

#[test]
fn a_terminal_entry_is_wrapped_in_the_terminal() {
    let mut launcher = file("[Desktop Entry]\nType=Application\nName=Top\nTerminal=true\nExec=/bin/true\n", true);
    let why = launcher_plan("/d/top.desktop", &Config::default(), &launcher).expect_err("no terminal");
    assert!(why.contains("needs a terminal"), "{why}");
    launcher.terminal = Some(vec!["/usr/bin/touch".to_owned(), "/tmp/wrapped".to_owned()]);
    let plan = launcher_plan("/d/top.desktop", &Config::default(), &launcher).expect("should run");
    assert_eq!(plan.argv, ["/usr/bin/touch", "/tmp/wrapped", "/bin/true"]);
}

#[test]
fn an_uninstalled_try_exec_is_refused() {
    let mut launcher = file("[Desktop Entry]\nType=Application\nTryExec=/nonexistent/binary\nExec=something\n", true);
    launcher.try_exec_installed = false;
    let why = launcher_plan("/d/t.desktop", &Config::default(), &launcher).expect_err("should refuse");
    assert!(why.contains("/nonexistent/binary"), "{why}");
}
