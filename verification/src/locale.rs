//! Which translation of a `.desktop` file's text to use.
//!
//! The Desktop Entry Specification puts translations in the key itself -- `Name`, `Name[fr]`,
//! `Name[zh_CN]` -- and says exactly which of them a given locale picks.
//!
//! The locale is `lang_COUNTRY.ENCODING@MODIFIER`, and everything but `lang` may be missing.
//! Matching drops the encoding entirely and then tries, most specific first:
//!
//! | locale        | keys tried                                  |
//! |---------------|---------------------------------------------|
//! | `sr_RS@latin` | `sr_RS@latin`, `sr_RS`, `sr@latin`, `sr`    |
//! | `zh_TW.UTF-8` | `zh_TW`, `zh`                               |
//! | `ja`          | `ja`                                        |
//!
//! and falls back to the unlocalized key when none of them is in the file. This is *not* a
//! general "try a less specific language" rule: `pt_BR` falls back to `pt` because the table
//! says so, and `pt` never reaches `pt_BR`.
//!
//! Reading the environment is the program's business; it hands the values of `LC_ALL`,
//! `LC_MESSAGES` and `LANG` to [`Locale::from_vars`].

use vstd::prelude::*;

use crate::strings::{chars_of, find, find_char, is_space, push_all, same_chars, slice_of, string_of, trim, trimmed};

verus! {

/// A locale, reduced to the key suffixes it will accept.
#[derive(Debug, Clone, PartialEq, Eq)]
pub struct Locale {
    /// The `[…]` suffixes to try, most specific first. Empty means no translation is wanted,
    /// which is what `C` and an unset environment both mean.
    tags: Vec<String>,
}

impl View for Locale {
    type V = Seq<Seq<char>>;

    closed spec fn view(&self) -> Seq<Seq<char>> {
        self.tags.deep_view()
    }
}

/// The part of `s` after position `k`, or nothing when that part is empty.
pub open spec fn nonempty_after(s: Seq<char>, k: int) -> Option<Seq<char>> {
    if k + 1 < s.len() {
        Some(s.subrange(k + 1, s.len() as int))
    } else {
        None
    }
}

/// The table of the specification: each line is skipped when it needs a part the locale did
/// not give.
pub open spec fn tags_for(lang: Seq<char>, country: Option<Seq<char>>, modifier: Option<Seq<char>>) -> Seq<
    Seq<char>,
> {
    let with_country = match country {
        Some(c) => match modifier {
            Some(m) => seq![lang + seq!['_'] + c + seq!['@'] + m, lang + seq!['_'] + c],
            None => seq![lang + seq!['_'] + c],
        },
        None => seq![],
    };
    let with_modifier = match modifier {
        Some(m) => seq![lang + seq!['@'] + m],
        None => seq![],
    };
    with_country + with_modifier + seq![lang]
}

/// The key suffixes that the locale string `spec` accepts, most specific first.
///
/// The encoding takes no part in this, so POSIX's two names for "no locale", `C` and `POSIX`,
/// are recognised once the encoding and modifier are cut off: `C.UTF-8` wants no translation
/// either.
pub open spec fn locale_tags(spec: Seq<char>) -> Seq<Seq<char>> {
    let t = trim(spec);
    let (head, modifier) = match find(t, '@') {
        Some(k) => (t.subrange(0, k), nonempty_after(t, k)),
        None => (t, None),
    };
    let head = match find(head, '.') {
        Some(k) => head.subrange(0, k),
        None => head,
    };
    let (lang, country) = match find(head, '_') {
        Some(k) => (head.subrange(0, k), nonempty_after(head, k)),
        None => (head, None),
    };
    if lang.len() == 0 || head == "C"@ || head == "POSIX"@ {
        seq![]
    } else {
        tags_for(lang, country, modifier)
    }
}

/// The keys to try for `key` under `tags`, most specific first, ending with `key` itself.
pub open spec fn candidates_for(tags: Seq<Seq<char>>, key: Seq<char>) -> Seq<Seq<char>> {
    Seq::new(tags.len(), |i: int| key + seq!['['] + tags[i] + seq![']']).push(key)
}

/// A locale with no translation wanted asks for the unlocalized key alone.
pub proof fn law_untranslated_asks_only_for_the_plain_key(key: Seq<char>)
    ensures
        candidates_for(Seq::empty(), key) == seq![key],
{
    assert(candidates_for(Seq::empty(), key) =~= seq![key]);
}

/// The encoding takes no part in matching: `lang_COUNTRY.ENCODING` accepts exactly what
/// `lang_COUNTRY` does, so `ja_JP.UTF-8` behaves like `ja_JP` and `C.UTF-8` like `C`.
pub proof fn law_encoding_is_ignored(head: Seq<char>, encoding: Seq<char>)
    requires
        !head.contains('.'),
        !head.contains('@'),
        !encoding.contains('@'),
        trim(head) == head,
        trim(head + seq!['.'] + encoding) == head + seq!['.'] + encoding,
    ensures
        locale_tags(head + seq!['.'] + encoding) == locale_tags(head),
{
    let t = head + seq!['.'] + encoding;
    let n = head.len() as int;
    assert(t[n] == '.');
    crate::strings::lemma_find_from(t, '@', 0);
    match find(t, '@') {
        Some(k) => {
            if k < n {
                assert(head[k] == t[k]);
            } else if k > n {
                assert(encoding[k - n - 1] == t[k]);
            }
        },
        None => {},
    }
    crate::strings::lemma_find_from(t, '.', 0);
    match find(t, '.') {
        Some(k) => {
            if k < n {
                assert(head[k] == t[k]);
            }
        },
        None => {},
    }
    assert(t.subrange(0, n) =~= head);
    crate::strings::lemma_find_from(head, '@', 0);
    crate::strings::lemma_find_from(head, '.', 0);
    match find(head, '@') {
        Some(k) => {
            assert(head.contains(head[k]));
        },
        None => {},
    }
    match find(head, '.') {
        Some(k) => {
            assert(head.contains(head[k]));
        },
        None => {},
    }
}

/// Whether a value from the environment counts as set: POSIX treats an empty one as unset.
pub open spec fn is_set(value: Option<Seq<char>>) -> bool {
    match value {
        Some(v) => trim(v).len() > 0,
        None => false,
    }
}

/// The locale POSIX says governs user-visible text: `LC_ALL`, then `LC_MESSAGES`, then
/// `LANG`, the first that is set.
pub open spec fn locale_from_vars(
    lc_all: Option<Seq<char>>,
    lc_messages: Option<Seq<char>>,
    lang: Option<Seq<char>>,
) -> Seq<Seq<char>> {
    if is_set(lc_all) {
        locale_tags(lc_all.unwrap())
    } else if is_set(lc_messages) {
        locale_tags(lc_messages.unwrap())
    } else if is_set(lang) {
        locale_tags(lang.unwrap())
    } else {
        seq![]
    }
}

/// The view of an optional string slice.
pub open spec fn str_opt_view(o: Option<&str>) -> Option<Seq<char>> {
    match o {
        Some(s) => Some(s@),
        None => None,
    }
}

/// The view of an optional vector of characters.
pub open spec fn vec_opt_view(o: Option<Vec<char>>) -> Option<Seq<char>> {
    match o {
        Some(v) => Some(v@),
        None => None,
    }
}

/// `Some(s[k+1..])` when that is not empty.
fn after(s: &[char], k: usize) -> (r: Option<Vec<char>>)
    requires
        k < s.len(),
    ensures
        vec_opt_view(r) == nonempty_after(s@, k as int),
{
    if k + 1 < s.len() {
        Some(slice_of(s, k + 1, s.len()))
    } else {
        None
    }
}

fn joined(lang: &Vec<char>, sep: char, rest: &Vec<char>) -> (r: String)
    ensures
        r@ == lang@ + seq![sep] + rest@,
{
    let mut s = string_of(lang.as_slice());
    s.push(sep);
    push_all(&mut s, rest.as_slice());
    s
}

fn value_is_set(value: Option<&str>) -> (r: bool)
    ensures
        r == is_set(str_opt_view(value)),
{
    match value {
        Some(v) => {
            let chars = chars_of(v);
            let t = trimmed(chars.as_slice());
            t.len() > 0
        },
        None => false,
    }
}

impl Locale {
    /// The locale that wants no translation at all: only unlocalized keys match.
    pub fn untranslated() -> (r: Self)
        ensures
            r@ == Seq::<Seq<char>>::empty(),
    {
        let r = Locale { tags: Vec::new() };
        assert(r@ =~= Seq::<Seq<char>>::empty());
        r
    }

    /// Work out which key suffixes a locale string accepts.
    pub fn parse(spec: &str) -> (r: Self)
        ensures
            r@ == locale_tags(spec@),
    {
        let all = chars_of(spec);
        let t = trimmed(all.as_slice());
        let (head, modifier) = match find_char(t.as_slice(), '@') {
            Some(k) => {
                proof {
                    crate::strings::lemma_find_from(t@, '@', 0);
                }
                (slice_of(t.as_slice(), 0, k), after(t.as_slice(), k))
            },
            None => (t.clone(), None),
        };
        let head = match find_char(head.as_slice(), '.') {
            Some(k) => {
                proof {
                    crate::strings::lemma_find_from(head@, '.', 0);
                }
                slice_of(head.as_slice(), 0, k)
            },
            None => head,
        };
        // POSIX's two names for "no locale". Neither is a language, and treating either as one
        // would have every file matched against a `[C]` key that no file has.
        let c = chars_of("C");
        let posix = chars_of("POSIX");
        let no_locale = same_chars(head.as_slice(), c.as_slice()) || same_chars(
            head.as_slice(),
            posix.as_slice(),
        );
        let (lang, country) = match find_char(head.as_slice(), '_') {
            Some(k) => {
                proof {
                    crate::strings::lemma_find_from(head@, '_', 0);
                }
                (slice_of(head.as_slice(), 0, k), after(head.as_slice(), k))
            },
            None => (head, None),
        };
        if lang.len() == 0 || no_locale {
            return Self::untranslated();
        }
        let ghost country_v = vec_opt_view(country);
        let ghost modifier_v = vec_opt_view(modifier);
        let mut tags: Vec<String> = Vec::new();
        match &country {
            Some(country) => {
                match &modifier {
                    Some(modifier) => {
                        let with_country = joined(&lang, '_', country);
                        let with_country = joined(&chars_of(with_country.as_str()), '@', modifier);
                        tags.push(with_country);
                    },
                    None => {},
                }
                tags.push(joined(&lang, '_', country));
            },
            None => {},
        }
        match &modifier {
            Some(modifier) => {
                tags.push(joined(&lang, '@', modifier));
            },
            None => {},
        }
        tags.push(string_of(lang.as_slice()));
        let r = Locale { tags };
        assert(r@ =~= tags_for(lang@, country_v, modifier_v));
        r
    }

    /// The locale set by the environment, given the values of `LC_ALL`, `LC_MESSAGES` and
    /// `LANG` as the program read them.
    ///
    /// POSIX's order for the category that covers user-visible text: `LC_ALL` overrides
    /// everything, then `LC_MESSAGES`, then `LANG`. An empty value is treated as unset.
    pub fn from_vars(lc_all: Option<&str>, lc_messages: Option<&str>, lang: Option<&str>) -> (r:
        Self)
        ensures
            r@ == locale_from_vars(
                str_opt_view(lc_all),
                str_opt_view(lc_messages),
                str_opt_view(lang),
            ),
    {
        if value_is_set(lc_all) {
            Self::parse(lc_all.unwrap())
        } else if value_is_set(lc_messages) {
            Self::parse(lc_messages.unwrap())
        } else if value_is_set(lang) {
            Self::parse(lang.unwrap())
        } else {
            Self::untranslated()
        }
    }

    /// The suffixes this locale accepts, most specific first.
    pub fn tags(&self) -> (r: &Vec<String>)
        ensures
            r.deep_view() == self@,
    {
        &self.tags
    }

    /// The keys to try for `key`, most specific first, ending with the unlocalized one.
    pub fn candidates(&self, key: &str) -> (r: Vec<String>)
        ensures
            r.deep_view() == candidates_for(self@, key@),
            r@.len() == self@.len() + 1,
            r@.last()@ == key@,
    {
        let key_chars = chars_of(key);
        let mut r: Vec<String> = Vec::new();
        for i in 0..self.tags.len()
            invariant
                r.len() == i,
                i <= self.tags.len(),
                key_chars@ == key@,
                forall|j: int|
                    0 <= j < i ==> #[trigger] r[j]@ == key@ + seq!['['] + self.tags[j]@ + seq![
                        ']',
                    ],
        {
            let mut s = string_of(key_chars.as_slice());
            s.push('[');
            let tag = chars_of(self.tags[i].as_str());
            push_all(&mut s, tag.as_slice());
            s.push(']');
            r.push(s);
        }
        r.push(string_of(key_chars.as_slice()));
        assert(r.deep_view() =~= candidates_for(self@, key@));
        r
    }
}

} // verus!
