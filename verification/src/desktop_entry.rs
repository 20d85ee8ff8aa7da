//! Reading freedesktop `.desktop` files.
//!
//! Enough of the Desktop Entry Specification to launch one: the `[Desktop Entry]` group, the
//! handful of keys that decide *what* to run, the `[Desktop Action …]` groups a launcher
//! offers, and the specification's own rules for turning an `Exec=` line into an argument
//! vector.
//!
//! Keys the specification types as `localestring` -- `Name` and `Icon`, of the ones read here
//! -- are resolved through [`crate::locale`] as they are parsed, so what comes out is already
//! in the user's language. Everything else, `Exec` and `Type` among them, is the same in every
//! locale by definition; a translated command line would be a different program.
//!
//! **`Exec=` is a shell-*like* string but is not shell.** The specification defines its own
//! quoting, and it is split here by those rules, so a `.desktop` file can never reach
//! substitutions, redirection or chained commands.
//!
//! Whether a `TryExec` program is installed is a question about the disk; the program asks it
//! and hands the answer to [`DesktopEntry::argv`].

use vstd::prelude::*;

use crate::locale::{candidates_for, locale_from_vars, str_opt_view, Locale};
use crate::strings::{
    chars_of, find, find_char, lines_view, opt_view, push_all, same_chars, slice_of, split_chars,
    split_on, starts_with, string_of, trim, trimmed,
};

verus! {

/// What kind of thing an entry describes.
#[derive(Debug, Clone, Copy, PartialEq, Eq, Structural)]
pub enum EntryType {
    /// Something to run: `Exec` says what.
    Application,
    /// Something to open: `URL` says what.
    Link,
    /// A directory. Carries no action of its own.
    Directory,
}

/// A parsed `[Desktop Entry]` group.
#[derive(Debug, Clone, PartialEq, Eq)]
pub struct DesktopEntry {
    pub entry_type: EntryType,
    /// `Name`, in the user's language: what the label under the icon reads, and what the `%c`
    /// field code expands to.
    pub name: Option<String>,
    pub exec_line: Option<String>,
    /// A binary that must exist for the entry to be usable.
    pub try_exec: Option<String>,
    /// The working directory to run in.
    pub path: Option<String>,
    /// Whether the program wants a terminal around it.
    pub terminal: bool,
    /// `Type=Link`'s target.
    pub url: Option<String>,
    /// The entry is "deleted"; the specification says to act as though it were not there.
    pub hidden: bool,
    /// The icon to draw: a theme name or an absolute path.
    pub icon: Option<String>,
    /// `X-WLRIX-Running-Icon`: the icon to draw *while the application is running*.
    pub running_icon: Option<String>,
    /// The window class the application will use, when it declares one.
    pub startup_wm_class: Option<String>,
    /// The entry's `[Desktop Action …]` groups, in the order they should be offered.
    pub actions: Vec<DesktopAction>,
}

/// One `[Desktop Action …]` group: a second way into the same application.
#[derive(Debug, Clone, PartialEq, Eq)]
pub struct DesktopAction {
    /// The identifier from the group header, `Store` in `[Desktop Action Store]`.
    pub id: String,
    /// `Name`, in the user's language.
    pub name: String,
    /// `Exec`.
    pub exec_line: String,
    /// `Icon`, if the action gives its own.
    pub icon: Option<String>,
}

/// The mathematical content of a [`DesktopAction`].
pub struct ActionView {
    pub id: Seq<char>,
    pub name: Seq<char>,
    pub exec_line: Seq<char>,
    pub icon: Option<Seq<char>>,
}

/// The mathematical content of a [`DesktopEntry`].
pub struct DesktopEntryView {
    pub entry_type: EntryType,
    pub name: Option<Seq<char>>,
    pub exec_line: Option<Seq<char>>,
    pub try_exec: Option<Seq<char>>,
    pub path: Option<Seq<char>>,
    pub terminal: bool,
    pub url: Option<Seq<char>>,
    pub hidden: bool,
    pub icon: Option<Seq<char>>,
    pub running_icon: Option<Seq<char>>,
    pub startup_wm_class: Option<Seq<char>>,
    pub actions: Seq<ActionView>,
}

impl View for DesktopAction {
    type V = ActionView;

    open spec fn view(&self) -> ActionView {
        ActionView { id: self.id@, name: self.name@, exec_line: self.exec_line@, icon: opt_view(self.icon) }
    }
}

impl View for DesktopEntry {
    type V = DesktopEntryView;

    open spec fn view(&self) -> DesktopEntryView {
        DesktopEntryView {
            entry_type: self.entry_type,
            name: opt_view(self.name),
            exec_line: opt_view(self.exec_line),
            try_exec: opt_view(self.try_exec),
            path: opt_view(self.path),
            terminal: self.terminal,
            url: opt_view(self.url),
            hidden: self.hidden,
            icon: opt_view(self.icon),
            running_icon: opt_view(self.running_icon),
            startup_wm_class: opt_view(self.startup_wm_class),
            actions: self.actions@.map_values(|a: DesktopAction| a@),
        }
    }
}

// ---------------------------------------------------------------------------------------
// What the text of a file says: its groups, in order, each with its keys.
// ---------------------------------------------------------------------------------------
/// One group of a file: its header, and its `key=value` pairs in the order they came, each
/// key once.
pub type GroupView = (Seq<char>, Seq<(Seq<char>, Seq<char>)>);

/// The first position at or after `i` whose key is `key`.
pub open spec fn key_from(fields: Seq<(Seq<char>, Seq<char>)>, key: Seq<char>, i: int) -> Option<
    int,
>
    decreases fields.len() - i,
{
    if i < 0 || i >= fields.len() {
        None
    } else if fields[i].0 == key {
        Some(i)
    } else {
        key_from(fields, key, i + 1)
    }
}

/// The value a group gives `key`.
pub open spec fn lookup(fields: Seq<(Seq<char>, Seq<char>)>, key: Seq<char>) -> Option<Seq<char>> {
    match key_from(fields, key, 0) {
        Some(k) => Some(fields[k].1),
        None => None,
    }
}

/// A key already present keeps its first value.
pub open spec fn insert_first(fields: Seq<(Seq<char>, Seq<char>)>, key: Seq<char>, value: Seq<char>) -> Seq<
    (Seq<char>, Seq<char>),
> {
    if key_from(fields, key, 0) is Some {
        fields
    } else {
        fields.push((key, value))
    }
}

/// What an escape sequence of a value stands for.
pub open spec fn escaped(c: char) -> Seq<char> {
    if c == 's' {
        seq![' ']
    } else if c == 'n' {
        seq!['\n']
    } else if c == 't' {
        seq!['\t']
    } else if c == 'r' {
        seq!['\r']
    } else if c == '\\' {
        seq!['\\']
    } else {
        seq!['\\', c]
    }
}

/// A value with the escape sequences of the specification undone. A backslash before
/// anything else is kept with what follows it, and a backslash at the end is kept.
pub open spec fn unescape(s: Seq<char>) -> Seq<char>
    decreases s.len(),
{
    if s.len() == 0 {
        seq![]
    } else if s[0] != '\\' {
        seq![s[0]] + unescape(s.drop_first())
    } else if s.len() == 1 {
        seq!['\\']
    } else {
        escaped(s[1]) + unescape(s.subrange(2, s.len() as int))
    }
}

/// Whether a trimmed line is a group header.
pub open spec fn is_header(line: Seq<char>) -> bool {
    line.len() >= 2 && line[0] == '[' && line.last() == ']'
}

/// What one line of a file adds to the groups read so far.
///
/// Blank lines and comments carry nothing; a header opens a group; a `key=value` line adds to
/// the last group unless that key is already there; anything else, and anything before the
/// first header, is skipped.
pub open spec fn read_line(groups: Seq<GroupView>, raw: Seq<char>) -> Seq<GroupView> {
    let line = trim(raw);
    if line.len() == 0 || line[0] == '#' {
        groups
    } else if is_header(line) {
        groups.push((line.subrange(1, line.len() - 1), seq![]))
    } else if groups.len() == 0 {
        groups
    } else {
        match find(line, '=') {
            None => groups,
            Some(k) => {
                let key = trim(line.subrange(0, k));
                let value = unescape(trim(line.subrange(k + 1, line.len() as int)));
                let last = groups.last();
                groups.update(groups.len() - 1, (last.0, insert_first(last.1, key, value)))
            },
        }
    }
}

/// The groups that a sequence of lines describes.
pub open spec fn read_lines(lines: Seq<Seq<char>>) -> Seq<GroupView>
    decreases lines.len(),
{
    if lines.len() == 0 {
        seq![]
    } else {
        read_line(read_lines(lines.drop_last()), lines.last())
    }
}

/// Every group of a file, in the order the file gives them.
pub open spec fn groups_of(text: Seq<char>) -> Seq<GroupView> {
    read_lines(split_on(text, '\n'))
}

/// The first position at or after `i` of a group called `name`.
pub open spec fn group_from(groups: Seq<GroupView>, name: Seq<char>, i: int) -> Option<int>
    decreases groups.len() - i,
{
    if i < 0 || i >= groups.len() {
        None
    } else if groups[i].0 == name {
        Some(i)
    } else {
        group_from(groups, name, i + 1)
    }
}

// ---------------------------------------------------------------------------------------
// What an entry is, given its groups.
// ---------------------------------------------------------------------------------------
/// The first of `keys`, from position `i` on, that the group gives a value that is not empty.
pub open spec fn first_nonempty(fields: Seq<(Seq<char>, Seq<char>)>, keys: Seq<Seq<char>>, i: int) -> Option<
    Seq<char>,
>
    decreases keys.len() - i,
{
    if i < 0 || i >= keys.len() {
        None
    } else {
        match lookup(fields, keys[i]) {
            Some(v) => if v.len() > 0 {
                Some(v)
            } else {
                first_nonempty(fields, keys, i + 1)
            },
            None => first_nonempty(fields, keys, i + 1),
        }
    }
}

/// A `localestring` key, resolved for the locale: the first translation the locale accepts
/// that is not empty, else the plain key when that is not empty.
pub open spec fn localized(fields: Seq<(Seq<char>, Seq<char>)>, tags: Seq<Seq<char>>, key: Seq<char>) -> Option<
    Seq<char>,
> {
    first_nonempty(fields, candidates_for(tags, key), 0)
}

/// A value, unless it is empty.
pub open spec fn nonempty(v: Option<Seq<char>>) -> Option<Seq<char>> {
    match v {
        Some(s) => if s.len() > 0 {
            Some(s)
        } else {
            None
        },
        None => None,
    }
}

/// The `Type` an entry declares.
pub open spec fn type_of(v: Option<Seq<char>>) -> Option<EntryType> {
    match v {
        Some(t) => if t == "Application"@ {
            Some(EntryType::Application)
        } else if t == "Link"@ {
            Some(EntryType::Link)
        } else if t == "Directory"@ {
            Some(EntryType::Directory)
        } else {
            None
        },
        None => None,
    }
}

/// `s` without `prefix`, when it starts with it.
pub open spec fn strip_prefix(s: Seq<char>, prefix: Seq<char>) -> Option<Seq<char>> {
    if prefix.len() <= s.len() && s.subrange(0, prefix.len() as int) == prefix {
        Some(s.subrange(prefix.len() as int, s.len() as int))
    } else {
        None
    }
}

/// The identifiers an `Actions=` list names: trimmed, empty ones left out.
pub open spec fn listed_ids(pieces: Seq<Seq<char>>) -> Seq<Seq<char>>
    decreases pieces.len(),
{
    if pieces.len() == 0 {
        seq![]
    } else {
        let prev = listed_ids(pieces.drop_last());
        let id = trim(pieces.last());
        if id.len() > 0 {
            prev.push(id)
        } else {
            prev
        }
    }
}

/// The identifiers of the `[Desktop Action …]` groups, in file order.
pub open spec fn group_ids(groups: Seq<GroupView>) -> Seq<Seq<char>>
    decreases groups.len(),
{
    if groups.len() == 0 {
        seq![]
    } else {
        let prev = group_ids(groups.drop_last());
        match strip_prefix(groups.last().0, "Desktop Action "@) {
            Some(id) => prev.push(id),
            None => prev,
        }
    }
}

/// The actions to offer, in order: those the `Actions=` key lists, or, when there is no such
/// key, every action group in file order.
pub open spec fn action_ids(groups: Seq<GroupView>, listed: Option<Seq<char>>) -> Seq<Seq<char>> {
    match listed {
        Some(l) => listed_ids(split_on(l, ';')),
        None => group_ids(groups),
    }
}

/// The action `id` names: its group must exist and give a `Name` and an `Exec` that are not
/// empty.
pub open spec fn action_for(groups: Seq<GroupView>, id: Seq<char>, tags: Seq<Seq<char>>) -> Option<
    ActionView,
> {
    match group_from(groups, "Desktop Action "@ + id, 0) {
        None => None,
        Some(g) => {
            let fields = groups[g].1;
            match localized(fields, tags, "Name"@) {
                None => None,
                Some(name) => match nonempty(lookup(fields, "Exec"@)) {
                    None => None,
                    Some(command) => Some(
                        ActionView { id, name, exec_line: command, icon: localized(fields, tags, "Icon"@) },
                    ),
                },
            }
        },
    }
}

/// The actions that `ids` name, in order, those that do not stand left out.
pub open spec fn actions_for(groups: Seq<GroupView>, ids: Seq<Seq<char>>, tags: Seq<Seq<char>>) -> Seq<
    ActionView,
>
    decreases ids.len(),
{
    if ids.len() == 0 {
        seq![]
    } else {
        let prev = actions_for(groups, ids.drop_last(), tags);
        match action_for(groups, ids.last(), tags) {
            Some(a) => prev.push(a),
            None => prev,
        }
    }
}

/// The entry a file describes under a locale accepting `tags`: its first `[Desktop Entry]`
/// group, which must declare a known `Type`.
pub open spec fn parsed(text: Seq<char>, tags: Seq<Seq<char>>) -> Option<DesktopEntryView> {
    let groups = groups_of(text);
    match group_from(groups, "Desktop Entry"@, 0) {
        None => None,
        Some(g) => {
            let f = groups[g].1;
            match type_of(lookup(f, "Type"@)) {
                None => None,
                Some(t) => Some(
                    DesktopEntryView {
                        entry_type: t,
                        name: localized(f, tags, "Name"@),
                        exec_line: lookup(f, "Exec"@),
                        try_exec: lookup(f, "TryExec"@),
                        path: nonempty(lookup(f, "Path"@)),
                        terminal: lookup(f, "Terminal"@) == Some("true"@),
                        url: lookup(f, "URL"@),
                        hidden: lookup(f, "Hidden"@) == Some("true"@),
                        icon: localized(f, tags, "Icon"@),
                        running_icon: nonempty(lookup(f, "X-WLRIX-Running-Icon"@)),
                        startup_wm_class: nonempty(lookup(f, "StartupWMClass"@)),
                        actions: actions_for(groups, action_ids(groups, lookup(f, "Actions"@)), tags),
                    },
                ),
            }
        },
    }
}

// ---------------------------------------------------------------------------------------
// Exec lines.
// ---------------------------------------------------------------------------------------
/// The words of `s[i..]`, given the words finished so far, the one in progress, whether one
/// is in progress, and whether a double quote is open.
///
/// Double quotes group; inside them a backslash escapes `"`, `` ` ``, `$` and `\`, and keeps
/// itself before anything else. Outside them, spaces and tabs separate words. Single quotes
/// are ordinary text.
pub open spec fn split_from(
    s: Seq<char>,
    i: int,
    words: Seq<Seq<char>>,
    current: Seq<char>,
    started: bool,
    quoted: bool,
) -> Result<Seq<Seq<char>>, Seq<char>>
    decreases s.len() - i,
{
    if i < 0 || i >= s.len() {
        if quoted {
            Err("Exec has an unclosed quote"@)
        } else if started {
            Ok(words.push(current))
        } else {
            Ok(words)
        }
    } else {
        let c = s[i];
        if c == '"' {
            split_from(s, i + 1, words, current, true, !quoted)
        } else if c == '\\' && quoted {
            if i + 1 >= s.len() {
                Err("Exec ends in a backslash"@)
            } else {
                let e = s[i + 1];
                if e == '"' || e == '`' || e == '$' || e == '\\' {
                    split_from(s, i + 2, words, current.push(e), true, quoted)
                } else {
                    split_from(s, i + 2, words, current.push('\\').push(e), true, quoted)
                }
            }
        } else if (c == ' ' || c == '\t') && !quoted {
            if started {
                split_from(s, i + 1, words.push(current), seq![], false, quoted)
            } else {
                split_from(s, i + 1, words, current, started, quoted)
            }
        } else {
            split_from(s, i + 1, words, current.push(c), true, quoted)
        }
    }
}

/// The words of an `Exec=` value, or why it has none.
pub open spec fn split_exec(s: Seq<char>) -> Result<Seq<Seq<char>>, Seq<char>> {
    split_from(s, 0, seq![], seq![], false, false)
}

/// Whether a field code stands for files or URLs, an icon, or is deprecated: all of which
/// expand to nothing here.
pub open spec fn is_dropped_code(c: char) -> bool {
    c == 'f' || c == 'F' || c == 'u' || c == 'U' || c == 'i' || c == 'd' || c == 'D' || c == 'n'
        || c == 'N' || c == 'v' || c == 'm'
}

/// One word with its field codes replaced, from position `i` on, given what is written so
/// far and whether a code was dropped.
pub open spec fn expand_from(
    a: Seq<char>,
    i: int,
    out: Seq<char>,
    dropped: bool,
    name: Seq<char>,
    path: Seq<char>,
) -> (Seq<char>, bool)
    decreases a.len() - i,
{
    if i < 0 || i >= a.len() {
        (out, dropped)
    } else if a[i] != '%' {
        expand_from(a, i + 1, out.push(a[i]), dropped, name, path)
    } else if i + 1 >= a.len() {
        (out.push('%'), dropped)
    } else {
        let c = a[i + 1];
        if c == '%' {
            expand_from(a, i + 2, out.push('%'), dropped, name, path)
        } else if is_dropped_code(c) {
            expand_from(a, i + 2, out, true, name, path)
        } else if c == 'c' {
            expand_from(a, i + 2, out + name, dropped, name, path)
        } else if c == 'k' {
            expand_from(a, i + 2, out + path, dropped, name, path)
        } else {
            expand_from(a, i + 2, out.push('%').push(c), dropped, name, path)
        }
    }
}

/// The words with their field codes replaced. A word that was only dropped codes vanishes;
/// one that merely contained one keeps what was around it.
pub open spec fn expand_words(words: Seq<Seq<char>>, name: Seq<char>, path: Seq<char>) -> Seq<
    Seq<char>,
>
    decreases words.len(),
{
    if words.len() == 0 {
        seq![]
    } else {
        let prev = expand_words(words.drop_last(), name, path);
        let (e, dropped) = expand_from(words.last(), 0, seq![], false, name, path);
        if dropped && e.len() == 0 {
            prev
        } else {
            prev.push(e)
        }
    }
}

/// The name an entry gives, or nothing.
pub open spec fn name_or_empty(name: Option<Seq<char>>) -> Seq<char> {
    match name {
        Some(n) => n,
        None => seq![],
    }
}

/// Rust's `Debug` rendering of a string: the text in double quotes, with quotes,
/// backslashes and unprintable characters escaped.
pub uninterp spec fn debug_str(s: Seq<char>) -> Seq<char>;

/// The name `Debug` gives an entry type.
pub open spec fn kind_name(t: EntryType) -> Seq<char> {
    match t {
        EntryType::Application => "Application"@,
        EntryType::Link => "Link"@,
        EntryType::Directory => "Directory"@,
    }
}

/// What `argv` answers for an entry, the `.desktop` file's path, and whether its `TryExec`
/// program is installed.
pub open spec fn entry_argv(e: DesktopEntryView, path: Seq<char>, installed: bool) -> Result<
    Seq<Seq<char>>,
    Seq<char>,
> {
    if e.hidden {
        Err("the entry is marked Hidden"@)
    } else if e.entry_type != EntryType::Application {
        Err(kind_name(e.entry_type) + " entries have nothing to run"@)
    } else if e.exec_line is None || trim(e.exec_line.unwrap()).len() == 0 {
        Err("the entry has no Exec line"@)
    } else if nonempty(e.try_exec) is Some && !installed {
        Err("TryExec "@ + debug_str(e.try_exec.unwrap()) + " is not installed"@)
    } else {
        match split_exec(e.exec_line.unwrap()) {
            Err(why) => Err(why),
            Ok(words) => {
                let argv = expand_words(words, name_or_empty(e.name), path);
                if argv.len() == 0 {
                    Err("the Exec line expands to nothing"@)
                } else {
                    Ok(argv)
                }
            },
        }
    }
}

/// What an action's `argv` answers.
pub open spec fn action_argv(a: ActionView, name: Option<Seq<char>>, path: Seq<char>) -> Result<
    Seq<Seq<char>>,
    Seq<char>,
> {
    match split_exec(a.exec_line) {
        Err(why) => Err(why),
        Ok(words) => {
            let argv = expand_words(words, name_or_empty(name), path);
            if argv.len() == 0 {
                Err("action "@ + debug_str(a.id) + " expands to nothing"@)
            } else {
                Ok(argv)
            }
        },
    }
}

/// The view of a result holding strings.
pub open spec fn argv_view(r: Result<Vec<String>, String>) -> Result<Seq<Seq<char>>, Seq<char>> {
    match r {
        Ok(v) => Ok(v.deep_view()),
        Err(e) => Err(e@),
    }
}

/// The view of an optional entry.
pub open spec fn entry_opt_view(r: Option<DesktopEntry>) -> Option<DesktopEntryView> {
    match r {
        Some(e) => Some(e@),
        None => None,
    }
}


// ---------------------------------------------------------------------------------------
// Reading a file.
// ---------------------------------------------------------------------------------------
struct Field {
    key: Vec<char>,
    value: Vec<char>,
}

struct Group {
    name: Vec<char>,
    fields: Vec<Field>,
}

spec fn fields_view(fs: Seq<Field>) -> Seq<(Seq<char>, Seq<char>)> {
    fs.map_values(|f: Field| (f.key@, f.value@))
}

spec fn group_view(g: Group) -> GroupView {
    (g.name@, fields_view(g.fields@))
}

spec fn groups_view(gs: Seq<Group>) -> Seq<GroupView> {
    gs.map_values(|g: Group| group_view(g))
}

spec fn chars_opt(o: Option<Vec<char>>) -> Option<Seq<char>> {
    match o {
        Some(v) => Some(v@),
        None => None,
    }
}

/// Where `key` first occurs in `fields`.
fn find_key(fields: &Vec<Field>, key: &[char]) -> (r: Option<usize>)
    ensures
        match r {
            Some(k) => k < fields.len() && key_from(fields_view(fields@), key@, 0) == Some(
                k as int,
            ),
            None => key_from(fields_view(fields@), key@, 0) is None,
        },
{
    let mut i: usize = 0;
    while i < fields.len()
        invariant
            i <= fields.len(),
            key_from(fields_view(fields@), key@, i as int) == key_from(
                fields_view(fields@),
                key@,
                0,
            ),
        decreases fields.len() - i,
    {
        if same_chars(fields[i].key.as_slice(), key) {
            return Some(i);
        }
        i = i + 1;
    }
    None
}

/// The value `fields` gives `key`.
fn lookup_chars(fields: &Vec<Field>, key: &str) -> (r: Option<Vec<char>>)
    ensures
        chars_opt(r) == lookup(fields_view(fields@), key@),
{
    let k = chars_of(key);
    match find_key(fields, k.as_slice()) {
        Some(i) => Some(slice_of(fields[i].value.as_slice(), 0, fields[i].value.len())),
        None => None,
    }
}

/// Add `key` to `fields` unless it is already there.
fn insert_field(fields: &mut Vec<Field>, key: Vec<char>, value: Vec<char>)
    ensures
        fields_view(final(fields)@) == insert_first(fields_view(old(fields)@), key@, value@),
{
    let found = find_key(fields, key.as_slice());
    if found.is_none() {
        let ghost before = fields_view(fields@);
        let ghost kv = (key@, value@);
        fields.push(Field { key, value });
        assert(fields_view(fields@) =~= before.push(kv));
    }
}

/// Append what the escape sequence for `c` stands for.
fn push_escaped(out: &mut Vec<char>, c: char)
    ensures
        final(out)@ == old(out)@ + escaped(c),
{
    let ghost before = out@;
    if c == 's' {
        out.push(' ');
    } else if c == 'n' {
        out.push('\n');
    } else if c == 't' {
        out.push('\t');
    } else if c == 'r' {
        out.push('\r');
    } else if c == '\\' {
        out.push('\\');
    } else {
        out.push('\\');
        out.push(c);
    }
    assert(out@ =~= before + escaped(c));
}

/// Undo the escape sequences of a value.
fn unescape_chars(s: &[char]) -> (r: Vec<char>)
    ensures
        r@ == unescape(s@),
{
    let mut out: Vec<char> = Vec::new();
    let mut i: usize = 0;
    assert(s@.subrange(0, s@.len() as int) =~= s@);
    while i < s.len()
        invariant
            i <= s.len(),
            out@ + unescape(s@.subrange(i as int, s@.len() as int)) == unescape(s@),
        decreases s.len() - i,
    {
        let ghost rest = s@.subrange(i as int, s@.len() as int);
        let ghost before = out@;
        if s[i] != '\\' {
            out.push(s[i]);
            assert(rest.drop_first() =~= s@.subrange(i + 1, s@.len() as int));
            assert(before + unescape(rest) =~= out@ + unescape(rest.drop_first()));
            i = i + 1;
        } else if i + 1 == s.len() {
            out.push('\\');
            assert(s@.subrange(i + 1, s@.len() as int) =~= Seq::<char>::empty());
            assert(before + unescape(rest) =~= out@ + unescape(
                s@.subrange(i + 1, s@.len() as int),
            ));
            i = i + 1;
        } else {
            let c = s[i + 1];
            push_escaped(&mut out, c);
            assert(rest.subrange(2, rest.len() as int) =~= s@.subrange(i + 2, s@.len() as int));
            assert(before + unescape(rest) =~= out@ + unescape(
                s@.subrange(i + 2, s@.len() as int),
            ));
            i = i + 2;
        }
    }
    assert(out@ =~= out@ + unescape(s@.subrange(s@.len() as int, s@.len() as int)));
    out
}

/// Add what one line of a file says to the groups read so far.
fn read_line_into(groups: &mut Vec<Group>, raw: &[char])
    ensures
        groups_view(final(groups)@) == read_line(groups_view(old(groups)@), raw@),
{
    let line = trimmed(raw);
    if line.len() == 0 || line[0] == '#' {
        return ;
    }
    if line.len() >= 2 && line[0] == '[' && line[line.len() - 1] == ']' {
        let name = slice_of(line.as_slice(), 1, line.len() - 1);
        let ghost before = groups_view(groups@);
        let g = Group { name, fields: Vec::new() };
        assert(group_view(g) =~= (line@.subrange(1, line@.len() - 1), Seq::<(Seq<char>, Seq<char>)>::empty()));
        groups.push(g);
        assert(groups_view(groups@) =~= before.push(group_view(g)));
        return ;
    }
    if groups.len() == 0 {
        return ;
    }
    match find_char(line.as_slice(), '=') {
        None => {},
        Some(k) => {
            proof {
                crate::strings::lemma_find_from(line@, '=', 0);
            }
            let key_part = slice_of(line.as_slice(), 0, k);
            let key = trimmed(key_part.as_slice());
            let value_part = slice_of(line.as_slice(), k + 1, line.len());
            let value = unescape_chars(trimmed(value_part.as_slice()).as_slice());
            let ghost before = groups_view(groups@);
            let mut g = groups.pop().unwrap();
            assert(groups_view(groups@) =~= before.drop_last());
            insert_field(&mut g.fields, key, value);
            groups.push(g);
            assert(groups_view(groups@) =~= before.update(
                before.len() - 1,
                (before.last().0, insert_first(before.last().1, trim(line@.subrange(0, k as int)), unescape(trim(line@.subrange(k + 1, line@.len() as int))))),
            ));
        },
    }
}

/// Every group of a file.
fn groups(text: &[char]) -> (r: Vec<Group>)
    ensures
        groups_view(r@) == groups_of(text@),
{
    let lines = split_chars(text, '\n');
    let ghost all = lines_view(lines@);
    let mut groups: Vec<Group> = Vec::new();
    assert(all.subrange(0, 0) =~= Seq::<Seq<char>>::empty());
    assert(groups_view(groups@) =~= Seq::<GroupView>::empty());
    for i in 0..lines.len()
        invariant
            all == lines_view(lines@),
            all == split_on(text@, '\n'),
            groups_view(groups@) == read_lines(all.subrange(0, i as int)),
    {
        assert(all.subrange(0, i + 1).drop_last() =~= all.subrange(0, i as int));
        assert(all.subrange(0, i + 1).last() == lines@[i as int]@);
        read_line_into(&mut groups, lines[i].as_slice());
    }
    assert(all.subrange(0, all.len() as int) =~= all);
    groups
}

/// Where the first group called `name` is.
fn find_group(groups: &Vec<Group>, name: &[char]) -> (r: Option<usize>)
    ensures
        match r {
            Some(k) => k < groups.len() && group_from(groups_view(groups@), name@, 0) == Some(
                k as int,
            ),
            None => group_from(groups_view(groups@), name@, 0) is None,
        },
{
    let mut i: usize = 0;
    while i < groups.len()
        invariant
            i <= groups.len(),
            group_from(groups_view(groups@), name@, i as int) == group_from(
                groups_view(groups@),
                name@,
                0,
            ),
        decreases groups.len() - i,
    {
        if same_chars(groups[i].name.as_slice(), name) {
            return Some(i);
        }
        i = i + 1;
    }
    None
}

/// A `localestring` key of a group, resolved for `locale`.
fn localized_value(fields: &Vec<Field>, locale: &Locale, key: &str) -> (r: Option<String>)
    ensures
        opt_view(r) == localized(fields_view(fields@), locale@, key@),
{
    let cands = locale.candidates(key);
    let ghost keys = candidates_for(locale@, key@);
    let mut i: usize = 0;
    while i < cands.len()
        invariant
            i <= cands.len(),
            cands.deep_view() == keys,
            keys == candidates_for(locale@, key@),
            first_nonempty(fields_view(fields@), keys, i as int) == first_nonempty(
                fields_view(fields@),
                keys,
                0,
            ),
        decreases cands.len() - i,
    {
        let c = chars_of(cands[i].as_str());
        assert(c@ == keys[i as int]);
        match find_key(fields, c.as_slice()) {
            Some(k) => {
                assert(fields_view(fields@)[k as int].1 == fields@[k as int].value@);
                if fields[k].value.len() > 0 {
                    return Some(string_of(fields[k].value.as_slice()));
                }
            },
            None => {},
        }
        i = i + 1;
    }
    None
}

/// A string of the characters, when there are any.
fn opt_string(o: &Option<Vec<char>>) -> (r: Option<String>)
    ensures
        opt_view(r) == chars_opt(*o),
{
    match o {
        Some(v) => Some(string_of(v.as_slice())),
        None => None,
    }
}

/// A string of the characters, when there are some.
fn nonempty_string(o: &Option<Vec<char>>) -> (r: Option<String>)
    ensures
        opt_view(r) == nonempty(chars_opt(*o)),
{
    match o {
        Some(v) => if v.len() > 0 {
            Some(string_of(v.as_slice()))
        } else {
            None
        },
        None => None,
    }
}

/// Whether a value is present and reads `true`.
fn is_true(o: &Option<Vec<char>>) -> (r: bool)
    ensures
        r == (chars_opt(*o) == Some("true"@)),
{
    match o {
        Some(v) => {
            let t = chars_of("true");
            same_chars(v.as_slice(), t.as_slice())
        },
        None => false,
    }
}

/// The type a `Type` value declares.
fn entry_type_of(o: &Option<Vec<char>>) -> (r: Option<EntryType>)
    ensures
        r == type_of(chars_opt(*o)),
{
    match o {
        Some(v) => {
            let application = chars_of("Application");
            let link = chars_of("Link");
            let directory = chars_of("Directory");
            if same_chars(v.as_slice(), application.as_slice()) {
                Some(EntryType::Application)
            } else if same_chars(v.as_slice(), link.as_slice()) {
                Some(EntryType::Link)
            } else if same_chars(v.as_slice(), directory.as_slice()) {
                Some(EntryType::Directory)
            } else {
                None
            }
        },
        None => None,
    }
}

/// The identifiers an `Actions=` value lists.
fn listed_action_ids(listed: &[char]) -> (r: Vec<Vec<char>>)
    ensures
        lines_view(r@) == listed_ids(split_on(listed@, ';')),
{
    let pieces = split_chars(listed, ';');
    let ghost all = lines_view(pieces@);
    let mut ids: Vec<Vec<char>> = Vec::new();
    assert(all.subrange(0, 0) =~= Seq::<Seq<char>>::empty());
    assert(lines_view(ids@) =~= Seq::<Seq<char>>::empty());
    for i in 0..pieces.len()
        invariant
            all == lines_view(pieces@),
            all == split_on(listed@, ';'),
            lines_view(ids@) == listed_ids(all.subrange(0, i as int)),
    {
        assert(all.subrange(0, i + 1).drop_last() =~= all.subrange(0, i as int));
        assert(all.subrange(0, i + 1).last() == pieces@[i as int]@);
        let id = trimmed(pieces[i].as_slice());
        if id.len() > 0 {
            let ghost before = lines_view(ids@);
            ids.push(id);
            assert(lines_view(ids@) =~= before.push(id@));
        }
    }
    assert(all.subrange(0, all.len() as int) =~= all);
    ids
}

/// The identifiers of the action groups, in file order.
fn group_action_ids(groups: &Vec<Group>) -> (r: Vec<Vec<char>>)
    ensures
        lines_view(r@) == group_ids(groups_view(groups@)),
{
    let ghost all = groups_view(groups@);
    let prefix = chars_of("Desktop Action ");
    let mut ids: Vec<Vec<char>> = Vec::new();
    assert(all.subrange(0, 0) =~= Seq::<GroupView>::empty());
    assert(lines_view(ids@) =~= Seq::<Seq<char>>::empty());
    for i in 0..groups.len()
        invariant
            all == groups_view(groups@),
            prefix@ == "Desktop Action "@,
            lines_view(ids@) == group_ids(all.subrange(0, i as int)),
    {
        assert(all.subrange(0, i + 1).drop_last() =~= all.subrange(0, i as int));
        assert(all.subrange(0, i + 1).last().0 == groups@[i as int].name@);
        let name = &groups[i].name;
        if starts_with(name.as_slice(), prefix.as_slice()) {
            let id = slice_of(name.as_slice(), prefix.len(), name.len());
            let ghost before = lines_view(ids@);
            ids.push(id);
            assert(lines_view(ids@) =~= before.push(id@));
        }
    }
    assert(all.subrange(0, all.len() as int) =~= all);
    ids
}

/// The action `id` names, if it stands.
fn make_action(groups: &Vec<Group>, id: &Vec<char>, locale: &Locale) -> (r: Option<DesktopAction>)
    ensures
        match r {
            Some(a) => action_for(groups_view(groups@), id@, locale@) == Some(a@),
            None => action_for(groups_view(groups@), id@, locale@) is None,
        },
{
    let mut wanted = chars_of("Desktop Action ");
    let ghost p = wanted@;
    let mut j: usize = 0;
    while j < id.len()
        invariant
            j <= id.len(),
            wanted@ == p + id@.subrange(0, j as int),
        decreases id.len() - j,
    {
        wanted.push(id[j]);
        j = j + 1;
    }
    assert(id@.subrange(0, id@.len() as int) =~= id@);
    let g = match find_group(groups, wanted.as_slice()) {
        Some(g) => g,
        None => return None,
    };
    let fields = &groups[g].fields;
    let name = match localized_value(fields, locale, "Name") {
        Some(n) => n,
        None => return None,
    };
    let exec_value = nonempty_string(&lookup_chars(fields, "Exec"));
    let exec_value = match exec_value {
        Some(e) => e,
        None => return None,
    };
    let icon = localized_value(fields, locale, "Icon");
    Some(DesktopAction { id: string_of(id.as_slice()), name, exec_line: exec_value, icon })
}

/// The actions an entry offers.
fn actions(groups: &Vec<Group>, listed: &Option<Vec<char>>, locale: &Locale) -> (r: Vec<
    DesktopAction,
>)
    ensures
        r@.map_values(|a: DesktopAction| a@) == actions_for(
            groups_view(groups@),
            action_ids(groups_view(groups@), chars_opt(*listed)),
            locale@,
        ),
{
    let ids = match listed {
        Some(l) => listed_action_ids(l.as_slice()),
        None => group_action_ids(groups),
    };
    let ghost all = lines_view(ids@);
    let mut actions: Vec<DesktopAction> = Vec::new();
    assert(all.subrange(0, 0) =~= Seq::<Seq<char>>::empty());
    assert(actions@.map_values(|a: DesktopAction| a@) =~= Seq::<ActionView>::empty());
    for i in 0..ids.len()
        invariant
            all == lines_view(ids@),
            all == action_ids(groups_view(groups@), chars_opt(*listed)),
            actions@.map_values(|a: DesktopAction| a@) == actions_for(
                groups_view(groups@),
                all.subrange(0, i as int),
                locale@,
            ),
    {
        assert(all.subrange(0, i + 1).drop_last() =~= all.subrange(0, i as int));
        assert(all.subrange(0, i + 1).last() == ids@[i as int]@);
        match make_action(groups, &ids[i], locale) {
            Some(a) => {
                let ghost before = actions@.map_values(|a: DesktopAction| a@);
                let ghost av = a@;
                actions.push(a);
                assert(actions@.map_values(|a: DesktopAction| a@) =~= before.push(av));
            },
            None => {},
        }
    }
    assert(all.subrange(0, all.len() as int) =~= all);
    actions
}

impl DesktopEntry {
    /// Parse a `.desktop` file's text under the locale the environment names, given the values
    /// of `LC_ALL`, `LC_MESSAGES` and `LANG` as the program read them; see
    /// [`Locale::from_vars`] and [`DesktopEntry::parse_in`].
    pub fn parse(text: &str, lc_all: Option<&str>, lc_messages: Option<&str>, lang: Option<&str>) -> (r:
        Option<Self>)
        ensures
            entry_opt_view(r) == parsed(
                text@,
                locale_from_vars(str_opt_view(lc_all), str_opt_view(lc_messages), str_opt_view(lang)),
            ),
    {
        let locale = Locale::from_vars(lc_all, lc_messages, lang);
        Self::parse_in(text, &locale)
    }

    /// Parse the `[Desktop Entry]` group out of a `.desktop` file's text, resolving localized
    /// keys for `locale`.
    ///
    /// `None` if there is no such group, or it has no usable `Type`. Anything else malformed
    /// is skipped rather than fatal: a stray line in a file someone hand-edited should not
    /// stop the entry working.
    pub fn parse_in(text: &str, locale: &Locale) -> (r: Option<Self>)
        ensures
            entry_opt_view(r) == parsed(text@, locale@),
    {
        let chars = chars_of(text);
        let groups = groups(chars.as_slice());
        let header = chars_of("Desktop Entry");
        let g = match find_group(&groups, header.as_slice()) {
            Some(g) => g,
            None => return None,
        };
        let fields = &groups[g].fields;
        let entry_type = match entry_type_of(&lookup_chars(fields, "Type")) {
            Some(t) => t,
            None => return None,
        };
        let listed = lookup_chars(fields, "Actions");
        let entry = DesktopEntry {
            entry_type,
            name: localized_value(fields, locale, "Name"),
            exec_line: opt_string(&lookup_chars(fields, "Exec")),
            try_exec: opt_string(&lookup_chars(fields, "TryExec")),
            path: nonempty_string(&lookup_chars(fields, "Path")),
            terminal: is_true(&lookup_chars(fields, "Terminal")),
            url: opt_string(&lookup_chars(fields, "URL")),
            hidden: is_true(&lookup_chars(fields, "Hidden")),
            icon: localized_value(fields, locale, "Icon"),
            running_icon: nonempty_string(&lookup_chars(fields, "X-WLRIX-Running-Icon")),
            startup_wm_class: nonempty_string(&lookup_chars(fields, "StartupWMClass")),
            actions: actions(&groups, &listed, locale),
        };
        Some(entry)
    }
}


// ---------------------------------------------------------------------------------------
// Running an entry.
// ---------------------------------------------------------------------------------------
/// `format!("{:?}", s)`: the text quoted and escaped the way Rust's `Debug` writes a string.
#[verifier::external_body]
fn debug_text(s: &str) -> (r: String)
    ensures
        r@ == debug_str(s@),
{
    format!("{:?}", s)
}

/// A string holding the text of a literal.
fn text(s: &str) -> (r: String)
    ensures
        r@ == s@,
{
    let chars = chars_of(s);
    string_of(chars.as_slice())
}

/// Split an `Exec=` value into words, by the specification's quoting rules: whitespace
/// separates, double quotes group, and inside them a backslash escapes `"`, `` ` ``, `$` and
/// itself. Single quotes are ordinary text. An unclosed quote is an error.
pub fn split(exec: &str) -> (r: Result<Vec<String>, String>)
    ensures
        argv_view(r) == split_exec(exec@),
{
    let chars = chars_of(exec);
    split_words(chars.as_slice())
}

/// Split an `Exec=` value into words, by the specification's quoting rules.
fn split_words(s: &[char]) -> (r: Result<Vec<String>, String>)
    ensures
        argv_view(r) == split_exec(s@),
{
    let mut words: Vec<String> = Vec::new();
    let mut current: Vec<char> = Vec::new();
    let mut started = false;
    let mut quoted = false;
    let mut i: usize = 0;
    assert(words.deep_view() =~= Seq::<Seq<char>>::empty());
    assert(current@ =~= Seq::<char>::empty());
    while i < s.len()
        invariant
            i <= s.len(),
            split_from(s@, i as int, words.deep_view(), current@, started, quoted) == split_exec(
                s@,
            ),
        decreases s.len() - i,
    {
        let c = s[i];
        if c == '"' {
            quoted = !quoted;
            started = true;
            i = i + 1;
        } else if c == '\\' && quoted {
            if i + 1 >= s.len() {
                return Err(text("Exec ends in a backslash"));
            }
            let e = s[i + 1];
            if e == '"' || e == '`' || e == '$' || e == '\\' {
                current.push(e);
            } else {
                current.push('\\');
                current.push(e);
            }
            started = true;
            i = i + 2;
        } else if (c == ' ' || c == '\t') && !quoted {
            if started {
                let ghost before = words.deep_view();
                words.push(string_of(current.as_slice()));
                assert(words.deep_view() =~= before.push(current@));
                current = Vec::new();
                started = false;
            }
            i = i + 1;
        } else {
            current.push(c);
            started = true;
            i = i + 1;
        }
    }
    if quoted {
        return Err(text("Exec has an unclosed quote"));
    }
    if started {
        let ghost before = words.deep_view();
        words.push(string_of(current.as_slice()));
        assert(words.deep_view() =~= before.push(current@));
    }
    Ok(words)
}

/// One word with its field codes replaced, and whether a code was dropped from it.
fn expand_word(a: &[char], name: &[char], path: &[char]) -> (r: (Vec<char>, bool))
    ensures
        (r.0@, r.1) == expand_from(a@, 0, seq![], false, name@, path@),
{
    let mut out: Vec<char> = Vec::new();
    let mut dropped = false;
    let mut i: usize = 0;
    while i < a.len()
        invariant
            i <= a.len(),
            expand_from(a@, i as int, out@, dropped, name@, path@) == expand_from(
                a@,
                0,
                seq![],
                false,
                name@,
                path@,
            ),
        decreases a.len() - i,
    {
        if a[i] != '%' {
            out.push(a[i]);
            i = i + 1;
        } else if i + 1 >= a.len() {
            out.push('%');
            i = i + 1;
        } else {
            let c = a[i + 1];
            if c == '%' {
                out.push('%');
            } else if c == 'f' || c == 'F' || c == 'u' || c == 'U' || c == 'i' || c == 'd' || c
                == 'D' || c == 'n' || c == 'N' || c == 'v' || c == 'm' {
                dropped = true;
            } else if c == 'c' {
                let ghost before = out@;
                let mut j: usize = 0;
                while j < name.len()
                    invariant
                        j <= name.len(),
                        out@ == before + name@.subrange(0, j as int),
                    decreases name.len() - j,
                {
                    out.push(name[j]);
                    j = j + 1;
                }
                assert(name@.subrange(0, name@.len() as int) =~= name@);
            } else if c == 'k' {
                let ghost before = out@;
                let mut j: usize = 0;
                while j < path.len()
                    invariant
                        j <= path.len(),
                        out@ == before + path@.subrange(0, j as int),
                    decreases path.len() - j,
                {
                    out.push(path[j]);
                    j = j + 1;
                }
                assert(path@.subrange(0, path@.len() as int) =~= path@);
            } else {
                out.push('%');
                out.push(c);
            }
            i = i + 2;
        }
    }
    (out, dropped)
}

/// The words with their field codes replaced.
fn expand(words: &Vec<String>, name: &[char], path: &[char]) -> (r: Vec<String>)
    ensures
        r.deep_view() == expand_words(words.deep_view(), name@, path@),
{
    let ghost all = words.deep_view();
    let mut out: Vec<String> = Vec::new();
    assert(all.subrange(0, 0) =~= Seq::<Seq<char>>::empty());
    assert(out.deep_view() =~= Seq::<Seq<char>>::empty());
    for i in 0..words.len()
        invariant
            all == words.deep_view(),
            out.deep_view() == expand_words(all.subrange(0, i as int), name@, path@),
    {
        assert(all.subrange(0, i + 1).drop_last() =~= all.subrange(0, i as int));
        assert(all.subrange(0, i + 1).last() == words@[i as int]@);
        let w = chars_of(words[i].as_str());
        let (e, dropped) = expand_word(w.as_slice(), name, path);
        if !(dropped && e.len() == 0) {
            let ghost before = out.deep_view();
            out.push(string_of(e.as_slice()));
            assert(out.deep_view() =~= before.push(e@));
        }
    }
    assert(all.subrange(0, all.len() as int) =~= all);
    out
}

/// The characters of an optional name, or none.
fn name_chars(name: Option<&str>) -> (r: Vec<char>)
    ensures
        r@ == name_or_empty(crate::locale::str_opt_view(name)),
{
    match name {
        Some(n) => chars_of(n),
        None => Vec::new(),
    }
}

/// Split and expand an `Exec=` value.
fn command(exec_line: &str, name: Option<&str>, path: &str) -> (r: Result<Vec<String>, String>)
    ensures
        match split_exec(exec_line@) {
            Err(why) => argv_view(r) == Err::<Seq<Seq<char>>, Seq<char>>(why),
            Ok(words) => argv_view(r) == Ok::<Seq<Seq<char>>, Seq<char>>(
                expand_words(words, name_or_empty(crate::locale::str_opt_view(name)), path@),
            ),
        },
{
    let e = chars_of(exec_line);
    let words = match split_words(e.as_slice()) {
        Ok(w) => w,
        Err(why) => return Err(why),
    };
    let n = name_chars(name);
    let p = chars_of(path);
    Ok(expand(&words, n.as_slice(), p.as_slice()))
}

/// The view of an optional string, as a string slice.
fn as_str_opt(o: &Option<String>) -> (r: Option<&str>)
    ensures
        crate::locale::str_opt_view(r) == opt_view(*o),
{
    match o {
        Some(s) => Some(s.as_str()),
        None => None,
    }
}

/// The position of the first action called `id`, from `i` on.
pub open spec fn action_from(actions: Seq<ActionView>, id: Seq<char>, i: int) -> Option<int>
    decreases actions.len() - i,
{
    if i < 0 || i >= actions.len() {
        None
    } else if actions[i].id == id {
        Some(i)
    } else {
        action_from(actions, id, i + 1)
    }
}

impl DesktopEntry {
    /// The action with this id, if the entry has one.
    ///
    /// By id rather than by position, because the menu is built from one parse and the action
    /// runs from another, and the file may have been edited in between.
    pub fn action(&self, id: &str) -> (r: Option<&DesktopAction>)
        ensures
            match action_from(self@.actions, id@, 0) {
                Some(k) => r is Some && r.unwrap()@ == self@.actions[k],
                None => r is None,
            },
    {
        let mut i: usize = 0;
        while i < self.actions.len()
            invariant
                i <= self.actions.len(),
                action_from(self@.actions, id@, i as int) == action_from(self@.actions, id@, 0),
            decreases self.actions.len() - i,
        {
            if crate::strings::same(self.actions[i].id.as_str(), id) {
                return Some(&self.actions[i]);
            }
            i = i + 1;
        }
        None
    }

    /// The argument vector to run, or an explanation of why there is none.
    ///
    /// `path` is the `.desktop` file itself, for the `%k` field code; `installed` says whether
    /// the program that `TryExec` names is on the system, and is only consulted when there is
    /// one.
    pub fn argv(&self, path: &str, installed: bool) -> (r: Result<Vec<String>, String>)
        ensures
            argv_view(r) == entry_argv(self@, path@, installed),
    {
        if self.hidden {
            return Err(text("the entry is marked Hidden"));
        }
        match self.entry_type {
            EntryType::Application => {},
            EntryType::Link => {
                let mut why = text("Link");
                why.append(" entries have nothing to run");
                return Err(why);
            },
            EntryType::Directory => {
                let mut why = text("Directory");
                why.append(" entries have nothing to run");
                return Err(why);
            },
        }
        let exec_value = match &self.exec_line {
            Some(e) => e,
            None => return Err(text("the entry has no Exec line")),
        };
        let exec_chars = chars_of(exec_value.as_str());
        if trimmed(exec_chars.as_slice()).len() == 0 {
            return Err(text("the entry has no Exec line"));
        }
        match &self.try_exec {
            Some(t) => {
                if !t.as_str().is_empty() && !installed {
                    let mut why = text("TryExec ");
                    let quoted = debug_text(t.as_str());
                    why.append(quoted.as_str());
                    why.append(" is not installed");
                    return Err(why);
                }
            },
            None => {},
        }
        let name = as_str_opt(&self.name);
        let argv = command(exec_value.as_str(), name, path);
        assert(exec_chars@ == self@.exec_line.unwrap());
        assert(crate::locale::str_opt_view(name) == self@.name);
        match argv {
            Ok(argv) => {
                if argv.len() == 0 {
                    Err(text("the Exec line expands to nothing"))
                } else {
                    Ok(argv)
                }
            },
            Err(why) => Err(why),
        }
    }
}

impl DesktopAction {
    /// The argument vector this action runs.
    ///
    /// `name` is the *application's* translated name, for `%c`; `path` is the `.desktop`
    /// file, for `%k`.
    pub fn argv(&self, name: Option<&str>, path: &str) -> (r: Result<Vec<String>, String>)
        ensures
            argv_view(r) == action_argv(self@, crate::locale::str_opt_view(name), path@),
    {
        let argv = command(self.exec_line.as_str(), name, path);
        match argv {
            Ok(argv) => {
                if argv.len() == 0 {
                    let mut why = text("action ");
                    let quoted = debug_text(self.id.as_str());
                    why.append(quoted.as_str());
                    why.append(" expands to nothing");
                    Err(why)
                } else {
                    Ok(argv)
                }
            },
            Err(why) => Err(why),
        }
    }
}

/// Whether a character separates words in an `Exec=` value outside quotes.
pub open spec fn is_blank(c: char) -> bool {
    c == ' ' || c == '\t'
}

/// The characters of `t` that are not blanks, in order.
pub open spec fn nonblank(t: Seq<char>) -> Seq<char>
    decreases t.len(),
{
    if t.len() == 0 {
        seq![]
    } else if is_blank(t.last()) {
        nonblank(t.drop_last())
    } else {
        nonblank(t.drop_last()).push(t.last())
    }
}

/// Words put end to end.
pub open spec fn joined(words: Seq<Seq<char>>) -> Seq<char>
    decreases words.len(),
{
    if words.len() == 0 {
        seq![]
    } else {
        joined(words.drop_last()) + words.last()
    }
}

/// A word that has something in it and no blank.
pub open spec fn solid(w: Seq<char>) -> bool {
    w.len() > 0 && forall|k: int| 0 <= k < w.len() ==> !is_blank(#[trigger] w[k])
}

proof fn lemma_split_unquoted(
    s: Seq<char>,
    i: int,
    words: Seq<Seq<char>>,
    current: Seq<char>,
    started: bool,
)
    requires
        0 <= i <= s.len(),
        forall|k: int| i <= k < s.len() ==> #[trigger] s[k] != '"',
        started == (current.len() > 0),
        forall|k: int| 0 <= k < words.len() ==> solid(#[trigger] words[k]),
        forall|k: int| 0 <= k < current.len() ==> !is_blank(#[trigger] current[k]),
        joined(words) + current == nonblank(s.subrange(0, i)),
    ensures
        split_from(s, i, words, current, started, false) matches Ok(ws) && joined(ws) == nonblank(s)
            && forall|k: int| 0 <= k < ws.len() ==> solid(#[trigger] ws[k]),
    decreases s.len() - i,
{
    if i >= s.len() {
        assert(s.subrange(0, i) =~= s);
        if started {
            let ws = words.push(current);
            assert(ws.drop_last() =~= words);
            assert forall|k: int| 0 <= k < ws.len() implies solid(#[trigger] ws[k]) by {
                if k < words.len() {
                    assert(ws[k] == words[k]);
                }
            }
        } else {
            assert(current =~= seq![]);
            assert(joined(words) + current =~= joined(words));
        }
    } else {
        let c = s[i];
        let next = s.subrange(0, i + 1);
        assert(next.drop_last() =~= s.subrange(0, i));
        assert(next.last() == c);
        if is_blank(c) {
            if started {
                let ws = words.push(current);
                assert(ws.drop_last() =~= words);
                assert forall|k: int| 0 <= k < ws.len() implies solid(#[trigger] ws[k]) by {
                    if k < words.len() {
                        assert(ws[k] == words[k]);
                    }
                }
                assert(joined(ws) + seq![] =~= joined(ws));
                lemma_split_unquoted(s, i + 1, ws, seq![], false);
            } else {
                lemma_split_unquoted(s, i + 1, words, current, started);
            }
        } else {
            let cur = current.push(c);
            assert forall|k: int| 0 <= k < cur.len() implies !is_blank(#[trigger] cur[k]) by {
                if k < current.len() {
                    assert(cur[k] == current[k]);
                }
            }
            assert(joined(words) + cur =~= (joined(words) + current).push(c));
            lemma_split_unquoted(s, i + 1, words, cur, true);
        }
    }
}

/// An `Exec=` value is not run through a shell: without double quotes it is its words and
/// nothing else -- every character that is not a blank kept, in order, none of them dropped
/// or interpreted, so `$HOME`, `;`, `*` and `>` arrive as the text they are.
pub proof fn law_exec_without_quotes_is_its_words(s: Seq<char>)
    requires
        forall|k: int| 0 <= k < s.len() ==> #[trigger] s[k] != '"',
    ensures
        split_exec(s) matches Ok(ws) && joined(ws) == nonblank(s) && forall|k: int|
            0 <= k < ws.len() ==> solid(#[trigger] ws[k]),
{
    assert(s.subrange(0, 0) =~= Seq::<char>::empty());
    assert(joined(Seq::<Seq<char>>::empty()) + Seq::<char>::empty() =~= Seq::<char>::empty());
    lemma_split_unquoted(s, 0, seq![], seq![], false);
}

} // verus!
