use wlrix_desktop::locale::Locale;


fn tags(spec: &str) -> Vec<String> {
    Locale::parse(spec).tags().clone()
}

#[test]
fn a_bare_language_tries_only_itself() {
    assert_eq!(tags("ja"), ["ja"]);
}

#[test]
fn a_country_falls_back_to_the_language() {
    assert_eq!(tags("zh_TW"), ["zh_TW", "zh"]);
}

#[test]
fn the_encoding_is_dropped_and_changes_nothing() {
    // `LANG` almost always carries one, so this is the ordinary case rather than an edge.
    assert_eq!(tags("zh_TW.UTF-8"), tags("zh_TW"));
    assert_eq!(tags("ja_JP.eucJP"), ["ja_JP", "ja"]);
}

#[test]
fn a_modifier_gives_the_full_four_way_fallback() {
    assert_eq!(
        tags("sr_RS@latin"),
        ["sr_RS@latin", "sr_RS", "sr@latin", "sr"]
    );
}

#[test]
fn a_modifier_without_a_country_skips_the_country_lines() {
    assert_eq!(tags("sr@latin"), ["sr@latin", "sr"]);
}

#[test]
fn encoding_and_modifier_together() {
    assert_eq!(tags("sr_RS.UTF-8@latin"), tags("sr_RS@latin"));
}

#[test]
fn the_c_locale_wants_no_translation() {
    assert!(tags("C").is_empty());
    assert!(tags("POSIX").is_empty());
    assert!(tags("").is_empty());
}

#[test]
fn the_c_locale_with_an_encoding_still_wants_no_translation() {
    assert!(tags("C.UTF-8").is_empty());
    assert!(tags("POSIX@x").is_empty());
    assert!(tags(" C.utf8 ").is_empty());
    // Only the whole name counts: a language that starts with `C` is still a language.
    assert_eq!(tags("Ca.UTF-8"), ["Ca"]);
}

#[test]
fn a_locale_that_is_only_punctuation_is_not_a_language() {
    // Nonsense in the environment must end at the unlocalized key, not at a key named
    // `Name[]` or `Name[@x]` that could never be in a file anyway.
    assert!(tags("_RS").is_empty());
    assert!(tags("@latin").is_empty());
}

#[test]
fn empty_parts_are_treated_as_absent() {
    assert_eq!(tags("fr_"), ["fr"]);
    assert_eq!(tags("fr@"), ["fr"]);
}

#[test]
fn candidates_end_at_the_unlocalized_key() {
    let candidates: Vec<String> = Locale::parse("zh_TW").candidates("Name");
    assert_eq!(candidates, ["Name[zh_TW]", "Name[zh]", "Name"]);
}

#[test]
fn an_untranslated_locale_asks_only_for_the_plain_key() {
    let candidates: Vec<String> = Locale::untranslated().candidates("Name");
    assert_eq!(candidates, ["Name"]);
}

#[test]
fn a_language_is_not_matched_by_a_shared_prefix() {
    // `pt_BR` must not reach a `pt` key by way of some cleverer rule than the spec's, and
    // `pt` must never reach `pt_BR` -- the fallback only ever gets less specific.
    assert!(!tags("pt").contains(&"pt_BR".to_owned()));
    assert_eq!(tags("pt_BR"), ["pt_BR", "pt"]);
}
