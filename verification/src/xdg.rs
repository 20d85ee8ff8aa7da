//! Finding the user's desktop directory, and the two wlRIX files that describe it.
//!
//! `XDG_DESKTOP_DIR` is not an environment variable in practice -- `xdg-user-dirs` writes it
//! into `~/.config/user-dirs.dirs`, a file of shell assignments that a login script sources.
//! A Wayland client started by the session never runs that script, so the file has to be read
//! directly. The environment is still checked first, since someone setting it by hand means
//! it.
//!
//! The program reads the environment and the file; which directory they name is decided here.

use vstd::prelude::*;

use crate::strings::{
    back_space, chars_of, is_space, lines_view, push_all, same_chars, skip_space, slice_of, split_chars,
    split_on, starts_with, string_of, trim, trimmed,
};

verus! {

/// Where `xdg-user-dirs` records the user's directory choices, relative to the config
/// directory.
pub const USER_DIRS: &'static str = "user-dirs.dirs";

/// The hand-edited settings file, relative to a config directory.
pub const CONFIG_NAME: &'static str = "wlrix/desktop.toml";

/// The machine-written icon positions, relative to the state directory.
pub const STATE_NAME: &'static str = "wlrix/desktop-icons.toml";

/// Consulted when the user has no config of their own.
pub const SYSTEM_CONFIG_DIR: &'static str = "/etc";

/// `name` added to the path `dir`, as `Path::join` does: an absolute `name` replaces `dir`,
/// and a separator goes between them unless `dir` is empty or already ends in one.
pub open spec fn path_join(dir: Seq<char>, name: Seq<char>) -> Seq<char> {
    if name.len() > 0 && name[0] == '/' {
        name
    } else if dir.len() == 0 || dir.last() == '/' {
        dir + name
    } else {
        dir + seq!['/'] + name
    }
}

/// `name` added to the path `dir`.
pub fn join(dir: &[char], name: &[char]) -> (r: Vec<char>)
    ensures
        r@ == path_join(dir@, name@),
{
    if name.len() > 0 && name[0] == '/' {
        return slice_of(name, 0, name.len());
    }
    let mut r = slice_of(dir, 0, dir.len());
    if dir.len() > 0 && dir[dir.len() - 1] != '/' {
        r.push('/');
    }
    let mut i: usize = 0;
    let ghost base = r@;
    while i < name.len()
        invariant
            i <= name.len(),
            r@ == base + name@.subrange(0, i as int),
        decreases name.len() - i,
    {
        r.push(name[i]);
        i = i + 1;
    }
    assert(name@.subrange(0, name@.len() as int) =~= name@);
    r
}

/// A value from the environment, unless it is missing or empty.
pub open spec fn set_value(v: Option<Seq<char>>) -> Option<Seq<char>> {
    match v {
        Some(s) => if s.len() > 0 {
            Some(s)
        } else {
            None
        },
        None => None,
    }
}

/// A base directory: the variable when it is set, else `fallback` under the home directory.
pub open spec fn base_dir(var: Option<Seq<char>>, home: Option<Seq<char>>, fallback: Seq<char>) -> Option<
    Seq<char>,
> {
    match set_value(var) {
        Some(d) => Some(d),
        None => match set_value(home) {
            Some(h) => Some(path_join(h, fallback)),
            None => None,
        },
    }
}

/// A base directory, given its variable and `$HOME` as the program read them.
pub fn base_dir_from(var: Option<&str>, home: Option<&str>, fallback: &str) -> (r: Option<String>)
    ensures
        crate::strings::opt_view(r) == base_dir(
            crate::locale::str_opt_view(var),
            crate::locale::str_opt_view(home),
            fallback@,
        ),
{
    match var {
        Some(v) => {
            if !v.is_empty() {
                return Some(string_of(chars_of(v).as_slice()));
            }
        },
        None => {},
    }
    match home {
        Some(h) => {
            if !h.is_empty() {
                let hc = chars_of(h);
                let fc = chars_of(fallback);
                return Some(string_of(join(hc.as_slice(), fc.as_slice()).as_slice()));
            }
            None
        },
        None => None,
    }
}

/// `$XDG_CONFIG_HOME`, or `~/.config` as the specification says to assume.
pub fn user_config_dir_from(xdg_config_home: Option<&str>, home: Option<&str>) -> (r: Option<
    String,
>)
    ensures
        crate::strings::opt_view(r) == base_dir(
            crate::locale::str_opt_view(xdg_config_home),
            crate::locale::str_opt_view(home),
            ".config"@,
        ),
{
    base_dir_from(xdg_config_home, home, ".config")
}

/// `$XDG_STATE_HOME`, or `~/.local/state` as the specification says to assume.
pub fn user_state_dir_from(xdg_state_home: Option<&str>, home: Option<&str>) -> (r: Option<
    String,
>)
    ensures
        crate::strings::opt_view(r) == base_dir(
            crate::locale::str_opt_view(xdg_state_home),
            crate::locale::str_opt_view(home),
            ".local/state"@,
        ),
{
    base_dir_from(xdg_state_home, home, ".local/state")
}

/// Where to look for the settings file, most specific first: under the user's config
/// directory when there is one, then under `/etc`.
pub fn config_paths(user_config_dir: Option<&str>) -> (r: Vec<String>)
    ensures
        r.deep_view() == match crate::locale::str_opt_view(user_config_dir) {
            Some(d) => seq![path_join(d, CONFIG_NAME@), path_join(SYSTEM_CONFIG_DIR@, CONFIG_NAME@)],
            None => seq![path_join(SYSTEM_CONFIG_DIR@, CONFIG_NAME@)],
        },
{
    let name = chars_of(CONFIG_NAME);
    let mut dirs: Vec<String> = Vec::new();
    match user_config_dir {
        Some(d) => {
            let dc = chars_of(d);
            dirs.push(string_of(join(dc.as_slice(), name.as_slice()).as_slice()));
        },
        None => {},
    }
    let system = chars_of(SYSTEM_CONFIG_DIR);
    dirs.push(string_of(join(system.as_slice(), name.as_slice()).as_slice()));
    proof {
        match crate::locale::str_opt_view(user_config_dir) {
            Some(d) => {
                assert(dirs.deep_view() =~= seq![path_join(d, CONFIG_NAME@), path_join(SYSTEM_CONFIG_DIR@, CONFIG_NAME@)]);
            },
            None => {
                assert(dirs.deep_view() =~= seq![path_join(SYSTEM_CONFIG_DIR@, CONFIG_NAME@)]);
            },
        }
    }
    dirs
}

/// Where the machine-written icon positions live, under the user's state directory.
pub fn state_path(user_state_dir: Option<&str>) -> (r: Option<String>)
    ensures
        crate::strings::opt_view(r) == match crate::locale::str_opt_view(user_state_dir) {
            Some(d) => Some(path_join(d, STATE_NAME@)),
            None => None,
        },
{
    match user_state_dir {
        Some(d) => {
            let dc = chars_of(d);
            let name = chars_of(STATE_NAME);
            Some(string_of(join(dc.as_slice(), name.as_slice()).as_slice()))
        },
        None => None,
    }
}

/// `s` without `prefix`, when it starts with it.
pub open spec fn without_prefix(s: Seq<char>, prefix: Seq<char>) -> Option<Seq<char>> {
    if prefix.len() <= s.len() && s.subrange(0, prefix.len() as int) == prefix {
        Some(s.subrange(prefix.len() as int, s.len() as int))
    } else {
        None
    }
}

/// `s` without surrounding double quotes, when it has them.
pub open spec fn unquoted(s: Seq<char>) -> Seq<char> {
    if s.len() >= 2 && s[0] == '"' && s.last() == '"' {
        s.subrange(1, s.len() - 1)
    } else {
        s
    }
}

/// What one line of a `user-dirs.dirs` file says `key` is, if it says.
///
/// Only the two forms `xdg-user-dirs` writes are understood -- a `$HOME`-relative path and an
/// absolute one -- rather than pretending to be a shell.
pub open spec fn user_dir_line(raw: Seq<char>, key: Seq<char>, home: Seq<char>) -> Option<Seq<char>> {
    let line = trim(raw);
    match without_prefix(line, key) {
        None => None,
        Some(rest) => {
            let rest = rest.subrange(skip_space(rest, 0), rest.len() as int);
            match without_prefix(rest, seq!['=']) {
                None => None,
                Some(v) => {
                    let value = unquoted(trim(v));
                    if value.len() == 0 {
                        None
                    } else {
                        match without_prefix(value, "$HOME/"@) {
                            Some(r) => Some(path_join(home, r)),
                            None => if value == "$HOME"@ {
                                Some(home)
                            } else if value[0] == '/' {
                                Some(value)
                            } else {
                                None
                            },
                        }
                    }
                },
            }
        },
    }
}

/// The last line of `lines` that says what `key` is.
pub open spec fn last_user_dir(lines: Seq<Seq<char>>, key: Seq<char>, home: Seq<char>) -> Option<
    Seq<char>,
>
    decreases lines.len(),
{
    if lines.len() == 0 {
        None
    } else {
        match user_dir_line(lines.last(), key, home) {
            Some(d) => Some(d),
            None => last_user_dir(lines.drop_last(), key, home),
        }
    }
}

fn strip(s: &[char], prefix: &[char]) -> (r: Option<Vec<char>>)
    ensures
        crate::locale::vec_opt_view(r) == without_prefix(s@, prefix@),
{
    if starts_with(s, prefix) {
        Some(slice_of(s, prefix.len(), s.len()))
    } else {
        None
    }
}

fn read_user_dir_line(raw: &[char], key: &[char], home: &[char]) -> (r: Option<Vec<char>>)
    ensures
        crate::locale::vec_opt_view(r) == user_dir_line(raw@, key@, home@),
{
    let line = trimmed(raw);
    let rest = match strip(line.as_slice(), key) {
        Some(r) => r,
        None => return None,
    };
    let (lo, _) = crate::strings::trim_bounds(rest.as_slice());
    let rest = slice_of(rest.as_slice(), lo, rest.len());
    let eq = vec!['='];
    assert(eq@ =~= seq!['=']);
    let v = match strip(rest.as_slice(), eq.as_slice()) {
        Some(v) => v,
        None => return None,
    };
    let t = trimmed(v.as_slice());
    let value = if t.len() >= 2 && t[0] == '"' && t[t.len() - 1] == '"' {
        slice_of(t.as_slice(), 1, t.len() - 1)
    } else {
        t
    };
    if value.len() == 0 {
        return None;
    }
    let home_slash = chars_of("$HOME/");
    match strip(value.as_slice(), home_slash.as_slice()) {
        Some(r) => return Some(join(home, r.as_slice())),
        None => {},
    }
    let home_word = chars_of("$HOME");
    if same_chars(value.as_slice(), home_word.as_slice()) {
        return Some(slice_of(home, 0, home.len()));
    }
    if value[0] == '/' {
        Some(value)
    } else {
        None
    }
}

/// Pull one directory out of a `user-dirs.dirs` file: the last assignment to `key` that
/// names a directory, as a shell sourcing the file would end up with.
pub fn parse_user_dirs(text: &str, key: &str, home: &str) -> (r: Option<String>)
    ensures
        crate::strings::opt_view(r) == last_user_dir(split_on(text@, '\n'), key@, home@),
{
    let tc = chars_of(text);
    let kc = chars_of(key);
    let hc = chars_of(home);
    let lines = split_chars(tc.as_slice(), '\n');
    let ghost all = lines_view(lines@);
    let mut i = lines.len();
    assert(all.subrange(0, all.len() as int) =~= all);
    while i > 0
        invariant
            i <= lines.len(),
            all == lines_view(lines@),
            all == split_on(text@, '\n'),
            kc@ == key@,
            hc@ == home@,
            last_user_dir(all.subrange(0, i as int), key@, home@) == last_user_dir(
                all,
                key@,
                home@,
            ),
        decreases i,
    {
        let ghost sub = all.subrange(0, i as int);
        assert(sub.drop_last() =~= all.subrange(0, i - 1));
        assert(sub.last() == lines@[i - 1]@);
        match read_user_dir_line(lines[i - 1].as_slice(), kc.as_slice(), hc.as_slice()) {
            Some(d) => return Some(string_of(d.as_slice())),
            None => {},
        }
        i = i - 1;
    }
    assert(all.subrange(0, 0) =~= Seq::<Seq<char>>::empty());
    None
}

/// The directory whose files get icons: `$XDG_DESKTOP_DIR` when it is set, then what the
/// `user-dirs.dirs` file says, then `~/Desktop`; nothing without a home directory.
pub open spec fn desktop_dir_path(
    desktop_var: Option<Seq<char>>,
    home: Option<Seq<char>>,
    user_dirs: Option<Seq<char>>,
) -> Option<Seq<char>> {
    match set_value(desktop_var) {
        Some(d) => Some(d),
        None => match set_value(home) {
            None => None,
            Some(h) => match user_dirs {
                Some(text) => match last_user_dir(split_on(text, '\n'), "XDG_DESKTOP_DIR"@, h) {
                    Some(d) => Some(d),
                    None => Some(path_join(h, "Desktop"@)),
                },
                None => Some(path_join(h, "Desktop"@)),
            },
        },
    }
}

/// The directory whose files get icons, given `$XDG_DESKTOP_DIR`, `$HOME` and the text of
/// the `user-dirs.dirs` file as the program read them.
///
/// The result is not required to exist: an empty desktop is a perfectly good desktop.
pub fn desktop_dir_from(desktop_var: Option<&str>, home: Option<&str>, user_dirs: Option<&str>) -> (r:
    Option<String>)
    ensures
        crate::strings::opt_view(r) == desktop_dir_path(
            crate::locale::str_opt_view(desktop_var),
            crate::locale::str_opt_view(home),
            crate::locale::str_opt_view(user_dirs),
        ),
{
    match desktop_var {
        Some(d) => {
            if !d.is_empty() {
                return Some(string_of(chars_of(d).as_slice()));
            }
        },
        None => {},
    }
    let h = match home {
        Some(h) => {
            if h.is_empty() {
                return None;
            }
            h
        },
        None => return None,
    };
    let from_file = match user_dirs {
        Some(text) => parse_user_dirs(text, "XDG_DESKTOP_DIR", h),
        None => None,
    };
    match from_file {
        Some(d) => Some(d),
        None => {
            let hc = chars_of(h);
            let dc = chars_of("Desktop");
            Some(string_of(join(hc.as_slice(), dc.as_slice()).as_slice()))
        },
    }
}

/// A set `$XDG_DESKTOP_DIR` wins as it stands, whatever else there is; without it and
/// without a home directory, the desktop is nowhere.
pub proof fn law_the_variable_wins(
    desktop_var: Option<Seq<char>>,
    home: Option<Seq<char>>,
    user_dirs: Option<Seq<char>>,
)
    ensures
        set_value(desktop_var) matches Some(d) ==> desktop_dir_path(desktop_var, home, user_dirs)
            == Some(d),
        set_value(desktop_var) is None && set_value(home) is None ==> desktop_dir_path(
            desktop_var,
            home,
            user_dirs,
        ) is None,
{
}

/// Without `$XDG_DESKTOP_DIR` but with a home directory `home`, the desktop is the directory
/// `user-dirs.dirs` gives for `XDG_DESKTOP_DIR` -- what [`parse_user_dirs`] reads from the
/// file -- and only when the file gives none, or there is no file, `Desktop` in the home
/// directory.
pub proof fn law_user_dirs_name_the_desktop(desktop_var: Option<Seq<char>>, home: Seq<char>, text: Seq<char>)
    requires
        set_value(desktop_var) is None,
        home.len() > 0,
    ensures
        last_user_dir(split_on(text, '\n'), "XDG_DESKTOP_DIR"@, home) matches Some(d) ==> desktop_dir_path(
            desktop_var,
            Some(home),
            Some(text),
        ) == Some(d),
        last_user_dir(split_on(text, '\n'), "XDG_DESKTOP_DIR"@, home) is None ==> desktop_dir_path(
            desktop_var,
            Some(home),
            Some(text),
        ) == Some(path_join(home, "Desktop"@)),
        desktop_dir_path(desktop_var, Some(home), None) == Some(path_join(home, "Desktop"@)),
{
}

/// A string with no white space at either end trims to itself.
proof fn lemma_trim_unchanged(s: Seq<char>)
    requires
        s.len() > 0,
        !is_space(s[0]),
        !is_space(s.last()),
    ensures
        trim(s) == s,
{
    assert(skip_space(s, 0) == 0);
    assert(back_space(s, 0, s.len() as int) == s.len());
    assert(s.subrange(0, s.len() as int) =~= s);
}

/// The line `xdg-user-dirs` writes for a desktop under the home directory,
/// `XDG_DESKTOP_DIR="$HOME/<rest>"`, names `<rest>` in the home directory, and as the last
/// line of the file that says anything about the desktop, it is what the file says.
pub proof fn law_a_home_relative_desktop_line(home: Seq<char>, rest: Seq<char>, earlier: Seq<Seq<char>>)
    ensures
        ({
            let line = "XDG_DESKTOP_DIR=\"$HOME/"@ + rest + seq!['"'];
            &&& user_dir_line(line, "XDG_DESKTOP_DIR"@, home) == Some(path_join(home, rest))
            &&& last_user_dir(earlier.push(line), "XDG_DESKTOP_DIR"@, home) == Some(
                path_join(home, rest),
            )
        }),
{
    reveal_strlit("XDG_DESKTOP_DIR=\"$HOME/");
    reveal_strlit("XDG_DESKTOP_DIR");
    reveal_strlit("$HOME/");
    reveal_strlit("$HOME");
    let key = "XDG_DESKTOP_DIR"@;
    let line = "XDG_DESKTOP_DIR=\"$HOME/"@ + rest + seq!['"'];
    lemma_trim_unchanged(line);
    assert(line.subrange(0, key.len() as int) =~= key);
    let after_key = line.subrange(key.len() as int, line.len() as int);
    assert(skip_space(after_key, 0) == 0);
    assert(after_key.subrange(0, after_key.len() as int) =~= after_key);
    assert(after_key.subrange(0, 1) =~= seq!['=']);
    let v = after_key.subrange(1, after_key.len() as int);
    lemma_trim_unchanged(v);
    let value = unquoted(v);
    assert(value =~= "$HOME/"@ + rest);
    assert(value.subrange(0, 6) =~= "$HOME/"@);
    assert(value.subrange(6, value.len() as int) =~= rest);
    assert(earlier.push(line).drop_last() =~= earlier);
}

/// The line `xdg-user-dirs` writes for a desktop elsewhere, `XDG_DESKTOP_DIR="<absolute>"`,
/// names that absolute path as it stands.
pub proof fn law_an_absolute_desktop_line(home: Seq<char>, dir: Seq<char>)
    requires
        dir.len() > 0,
        dir[0] == '/',
    ensures
        user_dir_line("XDG_DESKTOP_DIR=\""@ + dir + seq!['"'], "XDG_DESKTOP_DIR"@, home) == Some(dir),
{
    reveal_strlit("XDG_DESKTOP_DIR=\"");
    reveal_strlit("XDG_DESKTOP_DIR");
    reveal_strlit("$HOME/");
    reveal_strlit("$HOME");
    let key = "XDG_DESKTOP_DIR"@;
    let line = "XDG_DESKTOP_DIR=\""@ + dir + seq!['"'];
    lemma_trim_unchanged(line);
    assert(line.subrange(0, key.len() as int) =~= key);
    let after_key = line.subrange(key.len() as int, line.len() as int);
    assert(skip_space(after_key, 0) == 0);
    assert(after_key.subrange(0, after_key.len() as int) =~= after_key);
    assert(after_key.subrange(0, 1) =~= seq!['=']);
    let v = after_key.subrange(1, after_key.len() as int);
    lemma_trim_unchanged(v);
    let value = unquoted(v);
    assert(value =~= dir);
    if 6 <= value.len() {
        assert(value.subrange(0, 6)[0] != "$HOME/"@[0]);
    }
    assert(value != "$HOME"@) by {
        if value.len() == 5 {
            assert(value[0] != "$HOME"@[0]);
        }
    }
}

} // verus!
