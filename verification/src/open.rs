//! Opening what a double-click landed on.
//!
//! Two paths. A `.desktop` launcher is run from its own `Exec=` line (see
//! [`crate::desktop_entry`]); everything else -- files, directories, and a `Type=Link`
//! entry's URL -- is handed to an opener, `xdg-open` by default, which consults the user's
//! MIME associations.
//!
//! **Running a `.desktop` file requires the execute bit.** A `.desktop` file can arrive on the
//! desktop from anywhere looking like whatever its `Name` and `Icon` say, so the execute bit
//! is the consent: a launcher marked executable runs, and one that merely appeared does not.
//!
//! The program reads the file, asks the disk about its permissions and the `PATH`, and starts
//! the process; what opening something amounts to is decided here.

use vstd::prelude::*;

use crate::config::{opener, Config};
use crate::desktop_entry::{argv_view, entry_argv, nonempty, DesktopEntry, DesktopEntryView, EntryType};
use crate::entries::{Entry, EntryView, Kind};
use crate::strings::{chars_of, copy_opt, copy_strings, opt_view, push_str, string_of};

verus! {

/// What opening something would actually run.
#[derive(Debug, Clone, PartialEq, Eq)]
pub struct Plan {
    /// The command and its arguments, ready for `execvp`.
    pub argv: Vec<String>,
    /// The working directory, from a launcher's `Path=`.
    pub directory: Option<String>,
}

/// The mathematical content of a [`Plan`].
pub struct PlanView {
    pub argv: Seq<Seq<char>>,
    pub directory: Option<Seq<char>>,
}

impl View for Plan {
    type V = PlanView;

    open spec fn view(&self) -> PlanView {
        PlanView { argv: self.argv.deep_view(), directory: opt_view(self.directory) }
    }
}

/// What the program found out about a launcher file before deciding what to run.
#[derive(Debug, Clone)]
pub struct LauncherFile {
    /// The file's text parsed, or `None` when it is not a valid desktop entry.
    pub entry: Option<DesktopEntry>,
    /// Whether any of the file's three execute bits is set.
    pub executable: bool,
    /// Whether the program the entry's `TryExec` names is installed.
    pub try_exec_installed: bool,
    /// The terminal wrapper, as [`terminal_from`] chose it.
    pub terminal: Option<Vec<String>>,
}

/// The view of an optional list of strings.
pub open spec fn strings_opt(o: Option<Vec<String>>) -> Option<Seq<Seq<char>>> {
    match o {
        Some(v) => Some(v.deep_view()),
        None => None,
    }
}

/// The view of an optional entry.
pub open spec fn entry_opt(o: Option<DesktopEntry>) -> Option<DesktopEntryView> {
    match o {
        Some(e) => Some(e@),
        None => None,
    }
}

/// What running a `.desktop` file at `path` amounts to.
///
/// A `Type=Link` entry is a bookmark: its URL goes to the opener, and no execute bit is needed
/// because nothing is run. Anything else must be executable, must give an argument vector,
/// and is wrapped in the terminal when it asks for one.
pub open spec fn launcher_plan_of(
    path: Seq<char>,
    open: Seq<Seq<char>>,
    entry: Option<DesktopEntryView>,
    executable: bool,
    installed: bool,
    terminal: Option<Seq<Seq<char>>>,
) -> Result<PlanView, Seq<char>> {
    match entry {
        None => Err(path + " is not a valid desktop entry"@),
        Some(e) => if e.entry_type == EntryType::Link {
            match nonempty(e.url) {
                None => Err(path + " is a Link with no URL"@),
                Some(url) => Ok(PlanView { argv: opener(open).push(url), directory: None }),
            }
        } else if !executable {
            Err(
                path
                    + " is not executable, so it will not be run; `chmod +x` it if you trust it"@,
            )
        } else {
            match entry_argv(e, path, installed) {
                Err(why) => Err(path + ": "@ + why),
                Ok(argv) => if e.terminal {
                    match terminal {
                        None => Err(
                            path
                                + " needs a terminal and none was found; set `terminal` in desktop.toml"@,
                        ),
                        Some(t) => Ok(PlanView { argv: t + argv, directory: e.path }),
                    }
                } else {
                    Ok(PlanView { argv, directory: e.path })
                },
            }
        },
    }
}

/// What opening `entry` amounts to: a launcher is run by its own rules, anything else goes to
/// the opener.
pub open spec fn plan_of(entry: EntryView, open: Seq<Seq<char>>, file: LauncherFile) -> Result<
    PlanView,
    Seq<char>,
> {
    match entry.kind {
        Kind::Launcher => launcher_plan_of(
            entry.path,
            open,
            entry_opt(file.entry),
            file.executable,
            file.try_exec_installed,
            strings_opt(file.terminal),
        ),
        _ => Ok(PlanView { argv: opener(open).push(entry.path), directory: None }),
    }
}

/// The view of a planning result.
pub open spec fn plan_view(r: Result<Plan, String>) -> Result<PlanView, Seq<char>> {
    match r {
        Ok(p) => Ok(p@),
        Err(e) => Err(e@),
    }
}

/// `path` followed by `tail`.
fn message(path: &str, tail: &str) -> (r: String)
    ensures
        r@ == path@ + tail@,
{
    let mut r = String::new();
    push_str(&mut r, path);
    push_str(&mut r, tail);
    r
}

/// The command that opens a file or URL by its type.
pub fn opener_argv(config: &Config, target: &str) -> (r: Vec<String>)
    ensures
        r.deep_view() == opener(config.open.deep_view()).push(target@),
{
    let mut argv = config.open_command();
    let ghost before = argv.deep_view();
    argv.push(string_of(chars_of(target).as_slice()));
    assert(argv.deep_view() =~= before.push(target@));
    argv
}

/// Decide what opening `entry` should run, without running it.
///
/// The error is meant to be read: it says what was refused and why, because a double-click
/// that does nothing is otherwise indistinguishable from a broken desktop.
pub fn plan(entry: &Entry, config: &Config, file: &LauncherFile) -> (r: Result<Plan, String>)
    ensures
        plan_view(r) == plan_of(entry@, config.open.deep_view(), *file),
{
    match entry.kind {
        Kind::Launcher => launcher_plan(entry.path.as_str(), config, file),
        _ => Ok(Plan { argv: opener_argv(config, entry.path.as_str()), directory: None }),
    }
}

/// What running the `.desktop` file at `path` amounts to.
pub fn launcher_plan(path: &str, config: &Config, file: &LauncherFile) -> (r: Result<Plan, String>)
    ensures
        plan_view(r) == launcher_plan_of(
            path@,
            config.open.deep_view(),
            entry_opt(file.entry),
            file.executable,
            file.try_exec_installed,
            strings_opt(file.terminal),
        ),
{
    let entry = match &file.entry {
        Some(e) => e,
        None => return Err(message(path, " is not a valid desktop entry")),
    };
    if entry.entry_type == EntryType::Link {
        return match &entry.url {
            Some(url) => {
                if url.as_str().is_empty() {
                    Err(message(path, " is a Link with no URL"))
                } else {
                    Ok(Plan { argv: opener_argv(config, url.as_str()), directory: None })
                }
            },
            None => Err(message(path, " is a Link with no URL")),
        };
    }
    if !file.executable {
        return Err(
            message(
                path,
                " is not executable, so it will not be run; `chmod +x` it if you trust it",
            ),
        );
    }
    let argv = match entry.argv(path, file.try_exec_installed) {
        Ok(argv) => argv,
        Err(why) => {
            let mut r = message(path, ": ");
            push_str(&mut r, why.as_str());
            return Err(r);
        },
    };
    if entry.terminal {
        match &file.terminal {
            Some(t) => {
                let mut wrapped = copy_strings(t);
                let ghost head = wrapped.deep_view();
                let mut i: usize = 0;
                while i < argv.len()
                    invariant
                        i <= argv.len(),
                        wrapped.deep_view() == head + argv.deep_view().subrange(0, i as int),
                    decreases argv.len() - i,
                {
                    let ghost prev = wrapped.deep_view();
                    wrapped.push(argv[i].clone());
                    assert(wrapped.deep_view() =~= prev.push(argv.deep_view()[i as int]));
                    assert(argv.deep_view().subrange(0, i + 1) =~= argv.deep_view().subrange(
                        0,
                        i as int,
                    ).push(argv.deep_view()[i as int]));
                    i = i + 1;
                }
                assert(argv.deep_view().subrange(0, argv.deep_view().len() as int)
                    =~= argv.deep_view());
                Ok(Plan { argv: wrapped, directory: copy_opt(&entry.path) })
            },
            None => Err(
                message(
                    path,
                    " needs a terminal and none was found; set `terminal` in desktop.toml",
                ),
            ),
        }
    } else {
        Ok(Plan { argv, directory: copy_opt(&entry.path) })
    }
}

/// Terminal emulators to try when nothing says which to use, in order of preference.
pub open spec fn known_terminal_names() -> Seq<Seq<char>> {
    seq![
        "alacritty"@,
        "foot"@,
        "kitty"@,
        "wezterm"@,
        "xterm"@,
        "gnome-terminal"@,
        "konsole"@,
    ]
}

/// Terminal emulators to try when nothing says which to use, in order of preference.
pub fn known_terminals() -> (r: Vec<String>)
    ensures
        r.deep_view() == known_terminal_names(),
{
    let mut r: Vec<String> = Vec::new();
    r.push(string_of(chars_of("alacritty").as_slice()));
    r.push(string_of(chars_of("foot").as_slice()));
    r.push(string_of(chars_of("kitty").as_slice()));
    r.push(string_of(chars_of("wezterm").as_slice()));
    r.push(string_of(chars_of("xterm").as_slice()));
    r.push(string_of(chars_of("gnome-terminal").as_slice()));
    r.push(string_of(chars_of("konsole").as_slice()));
    assert(r.deep_view() =~= known_terminal_names());
    r
}

/// The first of the known terminals, from `i` on, that is installed.
pub open spec fn first_installed(installed: Seq<bool>, i: int) -> Option<int>
    decreases known_terminal_names().len() - i,
{
    if i < 0 || i >= known_terminal_names().len() || i >= installed.len() {
        None
    } else if installed[i] {
        Some(i)
    } else {
        first_installed(installed, i + 1)
    }
}

/// The command to wrap a `Terminal=true` program in.
///
/// The configured value wins. Failing that: `xdg-terminal-exec`, the freedesktop answer to
/// this question, which takes the command straight after it; then `$TERMINAL`; then whichever
/// of the known terminals is installed. All but the first take `-e`.
pub open spec fn terminal_choice(
    configured: Seq<Seq<char>>,
    xdg_terminal_exec: bool,
    terminal_var: Option<Seq<char>>,
    installed: Seq<bool>,
) -> Option<Seq<Seq<char>>> {
    if configured.len() > 0 {
        Some(configured)
    } else if xdg_terminal_exec {
        Some(seq!["xdg-terminal-exec"@])
    } else if terminal_var is Some && terminal_var.unwrap().len() > 0 {
        Some(seq![terminal_var.unwrap(), "-e"@])
    } else {
        match first_installed(installed, 0) {
            Some(i) => Some(seq![known_terminal_names()[i], "-e"@]),
            None => None,
        }
    }
}

/// The command to wrap a `Terminal=true` program in, given whether `xdg-terminal-exec` is on
/// the `PATH`, `$TERMINAL`, and which of [`known_terminals`] are installed, in their order.
pub fn terminal_from(
    config: &Config,
    xdg_terminal_exec: bool,
    terminal_var: Option<&str>,
    installed: &[bool],
) -> (r: Option<Vec<String>>)
    ensures
        strings_opt(r) == terminal_choice(
            config.terminal.deep_view(),
            xdg_terminal_exec,
            crate::locale::str_opt_view(terminal_var),
            installed@,
        ),
{
    match config.terminal_command() {
        Some(configured) => return Some(configured),
        None => {},
    }
    if xdg_terminal_exec {
        let mut r: Vec<String> = Vec::new();
        r.push(string_of(chars_of("xdg-terminal-exec").as_slice()));
        assert(r.deep_view() =~= seq!["xdg-terminal-exec"@]);
        return Some(r);
    }
    match terminal_var {
        Some(t) => {
            if !t.is_empty() {
                let mut r: Vec<String> = Vec::new();
                r.push(string_of(chars_of(t).as_slice()));
                r.push(string_of(chars_of("-e").as_slice()));
                assert(r.deep_view() =~= seq![t@, "-e"@]);
                return Some(r);
            }
        },
        None => {},
    }
    let known = known_terminals();
    let mut i: usize = 0;
    while i < known.len() && i < installed.len()
        invariant
            i <= known.len(),
            known.deep_view() == known_terminal_names(),
            config.terminal@.len() == 0,
            !xdg_terminal_exec,
            !(crate::locale::str_opt_view(terminal_var) is Some && crate::locale::str_opt_view(
                terminal_var,
            ).unwrap().len() > 0),
            first_installed(installed@, i as int) == first_installed(installed@, 0),
        decreases known.len() - i,
    {
        if installed[i] {
            let mut r: Vec<String> = Vec::new();
            r.push(known[i].clone());
            r.push(string_of(chars_of("-e").as_slice()));
            assert(r.deep_view() =~= seq![known_terminal_names()[i as int], "-e"@]);
            return Some(r);
        }
        i = i + 1;
    }
    None
}

/// A launcher that runs, runs in the directory its `Path=` names, whether or not it asks for a
/// terminal; a `Type=Link` runs nothing of its own and so has no directory. And it runs
/// exactly when it is executable, its `Exec` line gives an argument vector, and a terminal
/// was found if it wants one: that vector, behind the terminal's command when it wants one.
pub proof fn law_a_launcher_runs_in_its_path(
    path: Seq<char>,
    open: Seq<Seq<char>>,
    entry: DesktopEntryView,
    executable: bool,
    installed: bool,
    terminal: Option<Seq<Seq<char>>>,
)
    requires
        entry.entry_type != EntryType::Link,
    ensures
        launcher_plan_of(path, open, Some(entry), executable, installed, terminal) is Ok <==> (
        executable && entry_argv(entry, path, installed) is Ok && (entry.terminal ==> terminal is Some)),
        launcher_plan_of(path, open, Some(entry), executable, installed, terminal) matches Ok(p) ==> {
            &&& p.directory == entry.path
            &&& entry_argv(entry, path, installed) matches Ok(argv) && p.argv == if entry.terminal {
                terminal.unwrap() + argv
            } else {
                argv
            }
        },
{
}

/// A `Type=Link` hands its URL to the opener, runs in no particular directory, and needs no
/// execute bit.
pub proof fn law_a_link_goes_to_the_opener(
    path: Seq<char>,
    open: Seq<Seq<char>>,
    entry: DesktopEntryView,
    executable: bool,
    installed: bool,
    terminal: Option<Seq<Seq<char>>>,
)
    requires
        entry.entry_type == EntryType::Link,
    ensures
        launcher_plan_of(path, open, Some(entry), executable, installed, terminal) matches Ok(p) ==> {
            &&& p.directory is None
            &&& p.argv == opener(open).push(entry.url.unwrap())
            &&& entry.url.unwrap().len() > 0
        },
        (entry.url matches Some(u) && u.len() > 0) ==> launcher_plan_of(
            path,
            open,
            Some(entry),
            executable,
            installed,
            terminal,
        ) is Ok,
{
}

/// A file that is not a valid desktop entry is never run; a folder, a plain file or an
/// executable is never run either, only handed by its path to the opener, which always
/// succeeds.
pub proof fn law_only_launchers_run(
    path: Seq<char>,
    entry: EntryView,
    open: Seq<Seq<char>>,
    file: LauncherFile,
    executable: bool,
    installed: bool,
    terminal: Option<Seq<Seq<char>>>,
)
    ensures
        launcher_plan_of(path, open, None, executable, installed, terminal) is Err,
        entry.kind != Kind::Launcher ==> plan_of(entry, open, file) == Ok::<PlanView, Seq<char>>(
            PlanView { argv: opener(open).push(entry.path), directory: None },
        ),
{
}

} // verus!
