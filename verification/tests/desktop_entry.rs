use wlrix_desktop::desktop_entry::{split, DesktopEntry, EntryType};
use wlrix_desktop::locale::Locale;


fn path() -> String {
    "/desktop/thing.desktop".to_owned()
}

/// Parse with no translation: these entries carry only plain keys.
fn parse(text: &str) -> Option<DesktopEntry> {
    DesktopEntry::parse_in(text, &Locale::untranslated())
}

#[test]
fn a_plain_launcher_parses() {
    let entry = parse(
        "[Desktop Entry]\n\
         Type=Application\n\
         Name=Alacritty\n\
         TryExec=alacritty\n\
         Exec=alacritty\n\
         Terminal=false\n",
    )
    .expect("should parse");
    assert_eq!(entry.entry_type, EntryType::Application);
    assert_eq!(entry.name.as_deref(), Some("Alacritty"));
    assert_eq!(entry.exec_line.as_deref(), Some("alacritty"));
    assert!(!entry.terminal);
}

#[test]
fn only_the_desktop_entry_group_is_read() {
    // A real launcher carries `[Desktop Action …]` groups with their own Exec lines;
    // taking one of those would run the wrong thing.
    let entry = parse(
        "[Desktop Entry]\n\
         Type=Application\n\
         Exec=alacritty\n\
         \n\
         [Desktop Action New]\n\
         Name=New Terminal\n\
         Exec=should-not-win\n",
    )
    .expect("should parse");
    assert_eq!(entry.exec_line.as_deref(), Some("alacritty"));
}

#[test]
fn a_file_with_no_desktop_entry_group_is_refused() {
    assert!(parse("[Desktop Action New]\nExec=nope\n").is_none());
}

#[test]
fn an_entry_without_a_type_is_refused() {
    assert!(parse("[Desktop Entry]\nExec=nope\n").is_none());
}

#[test]
fn comments_and_blank_lines_are_skipped() {
    let entry = parse(
        "# a comment\n\
         \n\
         [Desktop Entry]\n\
         # another\n\
         Type=Application\n\
         Exec=thing\n",
    )
    .expect("should parse");
    assert_eq!(entry.exec_line.as_deref(), Some("thing"));
}

/// An abridged `mpv.desktop`: the shape every translated launcher has.
const MPV: &str = "[Desktop Entry]\n\
                   Type=Application\n\
                   Name=mpv Media Player\n\
                   Name[fr]=Lecteur multimédia mpv\n\
                   Name[ja]=mpv メディアプレイヤー\n\
                   Name[zh_CN]=mpv 媒体播放器\n\
                   Name[zh_TW]=mpv 媒體播放器\n\
                   Icon=mpv\n\
                   Exec=mpv --player-operation-mode=pseudo-gui -- %U\n";

/// `MPV`'s `Name`, as read under `locale`.
fn mpv_name(locale: &str) -> String {
    DesktopEntry::parse_in(MPV, &Locale::parse(locale))
        .expect("should parse")
        .name
        .expect("mpv has a Name")
}

#[test]
fn a_translated_name_is_taken_for_the_matching_locale() {
    assert_eq!(mpv_name("ja_JP.UTF-8"), "mpv メディアプレイヤー");
    assert_eq!(mpv_name("fr_FR.UTF-8"), "Lecteur multimédia mpv");
}

#[test]
fn a_country_picks_its_own_translation_over_the_other_ones() {
    // The case that makes this worth doing properly: `zh_CN` and `zh_TW` are different
    // text, and there is no plain `Name[zh]` to fall back to.
    assert_eq!(mpv_name("zh_CN.UTF-8"), "mpv 媒体播放器");
    assert_eq!(mpv_name("zh_TW.UTF-8"), "mpv 媒體播放器");
}

#[test]
fn a_country_falls_back_to_the_language_it_belongs_to() {
    // Canadian French is not in the file, and French is.
    assert_eq!(mpv_name("fr_CA.UTF-8"), "Lecteur multimédia mpv");
}

#[test]
fn an_untranslated_locale_gets_the_plain_key() {
    assert_eq!(mpv_name("C"), "mpv Media Player");
    assert_eq!(mpv_name(""), "mpv Media Player");
}

#[test]
fn a_locale_the_file_has_no_translation_for_gets_the_plain_key() {
    assert_eq!(mpv_name("is_IS.UTF-8"), "mpv Media Player");
}

#[test]
fn localised_keys_do_not_shadow_the_plain_one() {
    let entry = DesktopEntry::parse_in(
        "[Desktop Entry]\n\
         Type=Application\n\
         Name=Files\n\
         Name[ja]=ファイル\n\
         Exec=files\n",
        &Locale::parse("de_DE.UTF-8"),
    )
    .expect("should parse");
    assert_eq!(entry.name.as_deref(), Some("Files"));
}

#[test]
fn only_localestring_keys_are_translated() {
    // A translated `Exec` would be a different program. The spec types `Exec` as a plain
    // string for exactly that reason, so a file carrying `Exec[ja]` is simply wrong and
    // the key must be ignored rather than run.
    let entry = DesktopEntry::parse_in(
        "[Desktop Entry]\n\
         Type=Application\n\
         Name=Thing\n\
         Exec=thing\n\
         Exec[ja]=rm -rf /\n\
         Icon=thing\n\
         Icon[ja]=thing-ja\n",
        &Locale::parse("ja_JP.UTF-8"),
    )
    .expect("should parse");
    assert_eq!(entry.exec_line.as_deref(), Some("thing"));
    // `Icon` *is* a localestring, so it does follow the locale.
    assert_eq!(entry.icon.as_deref(), Some("thing-ja"));
}

#[test]
fn an_empty_translation_falls_through_to_the_plain_name() {
    // Rather than labeling the icon with nothing at all, which is what an unfiltered
    // lookup would do -- the empty value matched first and stopped the walk.
    let entry = DesktopEntry::parse_in(
        "[Desktop Entry]\nType=Application\nName=Files\nName[ja]=\nExec=files\n",
        &Locale::parse("ja_JP.UTF-8"),
    )
    .expect("should parse");
    assert_eq!(entry.name.as_deref(), Some("Files"));
}

#[test]
fn the_translated_name_is_what_the_percent_c_code_expands_to() {
    // The spec says `%c` is the *translated* name, so this follows from the same lookup
    // rather than being a second decision.
    let entry = DesktopEntry::parse_in(
        "[Desktop Entry]\n\
         Type=Application\n\
         Name=Files\n\
         Name[ja]=ファイル\n\
         Exec=files --title %c\n",
        &Locale::parse("ja_JP.UTF-8"),
    )
    .expect("should parse");
    assert_eq!(
        entry.argv(&path(), true).unwrap(),
        ["files", "--title", "ファイル"]
    );
}

/// An abridged `steam.desktop`: `Actions=` plus the groups it names.
const STEAM: &str = "[Desktop Entry]\n\
                     Type=Application\n\
                     Name=Steam\n\
                     Exec=/usr/bin/steam %U\n\
                     Actions=Store;Library;Friends;\n\
                     \n\
                     [Desktop Action Store]\n\
                     Name=Store\n\
                     Name[ja]=ストア\n\
                     Name[uk]=Крамниця\n\
                     Exec=/usr/bin/steam steam://store\n\
                     \n\
                     [Desktop Action Library]\n\
                     Name=Library\n\
                     Name[ja]=ライブラリ\n\
                     Icon=steam-library\n\
                     Exec=/usr/bin/steam steam://open/games\n\
                     \n\
                     [Desktop Action Friends]\n\
                     Name=Friends\n\
                     Exec=/usr/bin/steam steam://open/friends\n";

fn steam(locale: &str) -> DesktopEntry {
    DesktopEntry::parse_in(STEAM, &Locale::parse(locale)).expect("should parse")
}

fn action_names(entry: &DesktopEntry) -> Vec<&str> {
    entry
        .actions
        .iter()
        .map(|action| action.name.as_str())
        .collect()
}

#[test]
fn actions_come_back_in_the_order_the_actions_key_gives() {
    // The spec makes `Actions=` the authority on order, not the order of the groups.
    let entry = steam("C");
    assert_eq!(
        entry
            .actions
            .iter()
            .map(|a| a.id.as_str())
            .collect::<Vec<_>>(),
        ["Store", "Library", "Friends"]
    );
    assert_eq!(action_names(&entry), ["Store", "Library", "Friends"]);
}

#[test]
fn an_action_name_is_translated_like_any_other() {
    assert_eq!(
        action_names(&steam("ja_JP.UTF-8")),
        ["ストア", "ライブラリ", "Friends"]
    );
    assert_eq!(action_names(&steam("uk_UA.UTF-8"))[0], "Крамниця");
}

#[test]
fn an_action_keeps_its_own_exec_and_icon() {
    let entry = steam("C");
    let store = entry.action("Store").expect("Store");
    assert_eq!(store.exec_line, "/usr/bin/steam steam://store");
    assert_eq!(store.icon, None);
    assert_eq!(
        entry.action("Library").and_then(|a| a.icon.as_deref()),
        Some("steam-library")
    );
    assert_eq!(entry.action("Nope"), None);
}

#[test]
fn an_action_runs_its_own_command_not_the_entrys() {
    // The whole point: choosing "Store" must not simply start Steam.
    let entry = steam("C");
    let store = entry.action("Store").expect("Store");
    assert_eq!(
        store.argv(entry.name.as_deref(), &path()).unwrap(),
        ["/usr/bin/steam", "steam://store"]
    );
    assert_eq!(entry.argv(&path(), true).unwrap(), ["/usr/bin/steam"]);
}

#[test]
fn an_action_group_the_actions_key_does_not_name_is_ignored() {
    // The spec's rule, and a real protection: a group nobody listed is not an offer.
    let entry = DesktopEntry::parse_in(
        "[Desktop Entry]\n\
         Type=Application\n\
         Name=Thing\n\
         Exec=thing\n\
         Actions=Wanted;\n\
         \n\
         [Desktop Action Wanted]\n\
         Name=Wanted\n\
         Exec=thing --wanted\n\
         \n\
         [Desktop Action Sneaky]\n\
         Name=Sneaky\n\
         Exec=rm -rf /\n",
        &Locale::untranslated(),
    )
    .expect("should parse");
    assert_eq!(action_names(&entry), ["Wanted"]);
}

#[test]
fn a_file_with_no_actions_key_falls_back_to_the_groups_in_order() {
    // Not what the spec says -- it would ignore them -- but a hand-written file that
    // forgot the key is better served by showing them than by showing nothing.
    let entry = DesktopEntry::parse_in(
        "[Desktop Entry]\n\
         Type=Application\n\
         Name=Thing\n\
         Exec=thing\n\
         \n\
         [Desktop Action Second]\n\
         Name=Second\n\
         Exec=thing --second\n\
         \n\
         [Desktop Action First]\n\
         Name=First\n\
         Exec=thing --first\n",
        &Locale::untranslated(),
    )
    .expect("should parse");
    assert_eq!(action_names(&entry), ["Second", "First"]);
}

#[test]
fn an_action_missing_a_name_or_an_exec_is_dropped() {
    // The spec requires both. Without a `Name` there is no row to draw, and without an
    // `Exec` the row would do nothing when chosen.
    let entry = DesktopEntry::parse_in(
        "[Desktop Entry]\n\
         Type=Application\n\
         Name=Thing\n\
         Exec=thing\n\
         Actions=Nameless;Inert;Fine;\n\
         \n\
         [Desktop Action Nameless]\n\
         Exec=thing --nameless\n\
         \n\
         [Desktop Action Inert]\n\
         Name=Inert\n\
         \n\
         [Desktop Action Fine]\n\
         Name=Fine\n\
         Exec=thing --fine\n",
        &Locale::untranslated(),
    )
    .expect("should parse");
    assert_eq!(action_names(&entry), ["Fine"]);
}

#[test]
fn an_actions_key_naming_a_group_that_is_not_there_skips_it() {
    let entry = DesktopEntry::parse_in(
        "[Desktop Entry]\n\
         Type=Application\n\
         Name=Thing\n\
         Exec=thing\n\
         Actions=Missing;Present;\n\
         \n\
         [Desktop Action Present]\n\
         Name=Present\n\
         Exec=thing --present\n",
        &Locale::untranslated(),
    )
    .expect("should parse");
    assert_eq!(action_names(&entry), ["Present"]);
}

#[test]
fn an_entry_with_no_action_groups_has_none() {
    let entry = DesktopEntry::parse_in(MPV, &Locale::untranslated()).expect("should parse");
    assert!(entry.actions.is_empty());
}

#[test]
fn the_desktop_entry_group_still_wins_over_a_later_action_group() {
    // The regression the group rewrite could have caused: `group` used to stop at the next
    // header, and now every group is parsed. The main group's keys must still be its own.
    let entry = steam("C");
    assert_eq!(entry.exec_line.as_deref(), Some("/usr/bin/steam %U"));
    assert_eq!(entry.name.as_deref(), Some("Steam"));
}

#[test]
fn a_desktop_entry_group_that_is_not_first_is_still_found() {
    let entry = DesktopEntry::parse_in(
        "[Desktop Action Early]\n\
         Name=Early\n\
         Exec=thing --early\n\
         \n\
         [Desktop Entry]\n\
         Type=Application\n\
         Name=Thing\n\
         Exec=thing\n\
         Actions=Early;\n",
        &Locale::untranslated(),
    )
    .expect("should parse");
    assert_eq!(entry.exec_line.as_deref(), Some("thing"));
    assert_eq!(action_names(&entry), ["Early"]);
}

#[test]
fn value_escapes_are_undone() {
    let entry =
        parse("[Desktop Entry]\nType=Application\nName=a\\sb\\nc\\\\d\nExec=x\n")
            .expect("should parse");
    assert_eq!(entry.name.as_deref(), Some("a b\nc\\d"));
}

#[test]
fn spaces_around_the_equals_are_ignored() {
    let entry =
        parse("[Desktop Entry]\nType = Application\nExec = thing\n").expect("ok");
    assert_eq!(entry.exec_line.as_deref(), Some("thing"));
}

// --- Exec splitting -------------------------------------------------------------

fn args(exec: &str) -> Vec<String> {
    split(exec).expect("should split")
}

#[test]
fn arguments_split_on_whitespace() {
    assert_eq!(args("prog -a -b"), ["prog", "-a", "-b"]);
    assert_eq!(args("  prog   -a  "), ["prog", "-a"]);
}

#[test]
fn double_quotes_group() {
    assert_eq!(
        args(r#"prog "one argument" two"#),
        ["prog", "one argument", "two"]
    );
}

#[test]
fn an_empty_quoted_string_is_still_an_argument() {
    assert_eq!(args(r#"prog "" x"#), ["prog", "", "x"]);
}

#[test]
fn the_spec_escapes_work_inside_quotes() {
    assert_eq!(args(r#""a\"b""#), [r#"a"b"#]);
    assert_eq!(args(r#""a\$b""#), ["a$b"]);
    assert_eq!(args(r#""a\\b""#), [r"a\b"]);
    assert_eq!(args("\"a\\`b\""), ["a`b"]);
}

#[test]
fn single_quotes_are_ordinary_text() {
    // A real difference from a shell, and the spec's own rule.
    assert_eq!(args("prog it's"), ["prog", "it's"]);
}

#[test]
fn an_unclosed_quote_is_an_error() {
    assert!(split(r#"prog "unterminated"#).is_err());
    assert!(split(r#""ends in a backslash \"#).is_err());
}

// --- field codes ----------------------------------------------------------------

fn argv_of(exec: &str) -> Vec<String> {
    let entry = parse(&format!(
        "[Desktop Entry]\nType=Application\nName=Thing\nExec={exec}\n"
    ))
    .expect("should parse");
    entry.argv(&path(), true).expect("should build an argv")
}

#[test]
fn file_and_url_codes_expand_to_nothing() {
    // The desktop launches with no arguments, so these must disappear entirely rather
    // than being passed through as a literal "%F".
    for code in ["%f", "%F", "%u", "%U"] {
        assert_eq!(argv_of(&format!("prog {code}")), ["prog"], "{code}");
    }
}

#[test]
fn deprecated_codes_are_removed() {
    for code in ["%d", "%D", "%n", "%N", "%v", "%m", "%i"] {
        assert_eq!(argv_of(&format!("prog {code}")), ["prog"], "{code}");
    }
}

#[test]
fn a_doubled_percent_is_a_literal_one() {
    assert_eq!(argv_of("prog 100%%"), ["prog", "100%"]);
}

#[test]
fn name_and_path_codes_expand() {
    assert_eq!(argv_of("prog %c"), ["prog", "Thing"]);
    assert_eq!(argv_of("prog %k"), ["prog", "/desktop/thing.desktop"]);
}

#[test]
fn a_code_inside_a_bigger_argument_keeps_its_surroundings() {
    assert_eq!(argv_of("prog --file=%f"), ["prog", "--file="]);
}

#[test]
fn an_unknown_code_is_left_alone() {
    assert_eq!(argv_of("prog %z"), ["prog", "%z"]);
}

// --- what refuses to launch -----------------------------------------------------

fn refusal(text: &str) -> String {
    parse(text)
        .expect("should parse")
        .argv(&path(), false)
        .expect_err("should refuse")
}

#[test]
fn a_hidden_entry_does_not_run() {
    let why = refusal("[Desktop Entry]\nType=Application\nExec=x\nHidden=true\n");
    assert!(why.contains("Hidden"), "{why}");
}

#[test]
fn a_link_or_directory_has_nothing_to_run() {
    // Both are legitimate entries; they are just not something `argv` can answer for.
    let why = refusal("[Desktop Entry]\nType=Link\nURL=https://example.invalid\n");
    assert!(why.contains("Link"), "{why}");
    let why = refusal("[Desktop Entry]\nType=Directory\n");
    assert!(why.contains("Directory"), "{why}");
}

#[test]
fn a_missing_or_empty_exec_is_refused() {
    let why = refusal("[Desktop Entry]\nType=Application\n");
    assert!(why.contains("Exec"), "{why}");
    let why = refusal("[Desktop Entry]\nType=Application\nExec=   \n");
    assert!(why.contains("Exec"), "{why}");
}

#[test]
fn an_uninstalled_try_exec_is_refused_by_name() {
    let why = refusal(
        "[Desktop Entry]\nType=Application\nTryExec=/nonexistent/binary\nExec=something\n",
    );
    assert!(why.contains("/nonexistent/binary"), "{why}");
}

#[test]
fn a_link_entry_still_carries_its_url() {
    let entry = parse(
        "[Desktop Entry]\nType=Link\nName=Site\nURL=https://example.invalid/x\n",
    )
    .expect("should parse");
    assert_eq!(entry.url.as_deref(), Some("https://example.invalid/x"));
}

#[test]
fn exec_is_not_run_through_a_shell() {
    // The whole reason for splitting here: a `.desktop` file must not be able to reach
    // shell features. These stay inert text in the argv.
    let argv = argv_of("prog $HOME");
    assert_eq!(argv, ["prog", "$HOME"], "no variable expansion");
    let argv = argv_of("prog a;b");
    assert_eq!(argv, ["prog", "a;b"], "no command separation");
    let argv = argv_of("prog *");
    assert_eq!(argv, ["prog", "*"], "no globbing");
}

#[test]
fn a_refusal_quotes_the_program_it_could_not_find() {
    let why = refusal("[Desktop Entry]\nType=Application\nTryExec=/opt/my \"odd\" tool\nExec=x\n");
    assert_eq!(why, "TryExec \"/opt/my \\\"odd\\\" tool\" is not installed");
}

#[test]
fn parse_reads_the_locale_the_environment_names() {
    let name = |lc_all, lc_messages, lang| {
        DesktopEntry::parse(MPV, lc_all, lc_messages, lang).expect("should parse").name.expect("a Name")
    };
    // `LC_ALL` overrides the others; an empty one counts as unset.
    assert_eq!(name(Some("ja_JP.UTF-8"), Some("fr_FR"), None), "mpv メディアプレイヤー");
    assert_eq!(name(Some(""), Some("fr_FR"), Some("ja_JP")), "Lecteur multimédia mpv");
    assert_eq!(name(None, None, Some("zh_TW.UTF-8")), "mpv 媒體播放器");
    // Nothing set, or `C`, is the plain key.
    assert_eq!(name(None, None, None), "mpv Media Player");
    assert_eq!(name(None, None, Some("C.UTF-8")), "mpv Media Player");
}
