//! Which applications are running, and so which magic carpets stand open.
//!
//! A window carries an `app_id`; a `.desktop` file does not, quite. The convention is that
//! `app_id` equals the desktop file's basename, and `StartupWMClass` exists for the
//! applications that break it. So three candidates are tried, most reliable first, and
//! compared case-insensitively because `Alacritty` and `alacritty` are the same application
//! by any sensible reading.
//!
//! The windows come from the compositor's toplevel list, which the program listens to and
//! reports here as windows open and close.

use std::collections::HashMap;

use vstd::prelude::*;
use vstd::std_specs::iter::IteratorSpec;

use crate::desktop_entry::DesktopEntry;
use crate::strings::{chars_of, is_space, same, slice_of, split_path, string_of, trim, trimmed};

verus! {

/// Unicode's lowercase mapping of a string, as `str::to_lowercase` applies it.
pub uninterp spec fn lowercase(s: Seq<char>) -> Seq<char>;

/// `str::to_lowercase`.
#[verifier::external_body]
fn to_lowercase(s: &str) -> (r: String)
    ensures
        r@ == lowercase(s@),
{
    s.to_lowercase()
}

/// How a name is compared: trimmed and lowercased.
pub open spec fn folded(name: Seq<char>) -> Seq<char> {
    lowercase(trim(name))
}

/// The first word of `s`: its first run of characters that are not white space.
pub open spec fn first_word(s: Seq<char>) -> Option<Seq<char>> {
    let start = crate::strings::skip_space(s, 0);
    if start >= s.len() {
        None
    } else {
        Some(s.subrange(start, word_end(s, start)))
    }
}

/// Where the run of non-space characters starting at `i` ends.
pub open spec fn word_end(s: Seq<char>, i: int) -> int
    decreases s.len() - i,
{
    if 0 <= i < s.len() && !is_space(s[i]) {
        word_end(s, i + 1)
    } else {
        i
    }
}

/// The names a launcher's windows might appear under, before folding: `StartupWMClass`, the
/// desktop file's stem, and the program the `Exec` line runs.
pub open spec fn identity_candidates(
    wm_class: Option<Seq<char>>,
    path: Seq<char>,
    exec: Option<Seq<char>>,
) -> Seq<Seq<char>> {
    let from_class = match wm_class {
        Some(c) => seq![c],
        None => seq![],
    };
    let from_path = match crate::strings::file_stem(path) {
        Some(stem) => seq![stem],
        None => seq![],
    };
    let from_exec = match exec {
        Some(e) => match first_word(e) {
            Some(program) => match crate::strings::file_name(program) {
                Some(name) => seq![name],
                None => seq![],
            },
            None => seq![],
        },
        None => seq![],
    };
    from_class + from_path + from_exec
}

/// The candidates folded, in order, leaving out empty ones and repeats.
pub open spec fn distinct_folded(candidates: Seq<Seq<char>>) -> Seq<Seq<char>>
    decreases candidates.len(),
{
    if candidates.len() == 0 {
        seq![]
    } else {
        let prev = distinct_folded(candidates.drop_last());
        let name = folded(candidates.last());
        if name.len() > 0 && !prev.contains(name) {
            prev.push(name)
        } else {
            prev
        }
    }
}

/// Every candidate that folds to something is among the folded names.
proof fn lemma_folded_kept(c: Seq<Seq<char>>, i: int)
    requires
        0 <= i < c.len(),
        folded(c[i]).len() > 0,
    ensures
        distinct_folded(c).contains(folded(c[i])),
    decreases c.len(),
{
    let prev = distinct_folded(c.drop_last());
    let name = folded(c.last());
    if i < c.len() - 1 {
        assert(c.drop_last()[i] == c[i]);
        lemma_folded_kept(c.drop_last(), i);
        let k = choose|k: int| 0 <= k < prev.len() && prev[k] == folded(c[i]);
        if name.len() > 0 && !prev.contains(name) {
            assert(prev.push(name)[k] == folded(c[i]));
        }
    } else {
        if name.len() > 0 && !prev.contains(name) {
            assert(prev.push(name)[prev.len() as int] == name);
        }
    }
}

/// The first candidate, when it folds to something, is the first name.
proof fn lemma_folded_first(c: Seq<Seq<char>>)
    requires
        c.len() > 0,
        folded(c[0]).len() > 0,
    ensures
        distinct_folded(c).len() > 0,
        distinct_folded(c)[0] == folded(c[0]),
    decreases c.len(),
{
    let prev = distinct_folded(c.drop_last());
    if c.len() == 1 {
        assert(prev == Seq::<Seq<char>>::empty());
        assert(!prev.contains(folded(c.last())));
    } else {
        assert(c.drop_last()[0] == c[0]);
        lemma_folded_first(c.drop_last());
    }
}

/// The folded names are none of them empty, and none of them twice.
proof fn lemma_folded_distinct(c: Seq<Seq<char>>)
    ensures
        forall|i: int| 0 <= i < distinct_folded(c).len() ==> (#[trigger] distinct_folded(c)[i]).len() > 0,
        distinct_folded(c).no_duplicates(),
    decreases c.len(),
{
    if c.len() > 0 {
        lemma_folded_distinct(c.drop_last());
    }
}

/// The names a launcher's windows are looked for under: its `StartupWMClass`, trimmed and
/// lowercased, first whenever it has one that is not blank; its file's stem and its `Exec`
/// program, trimmed and lowercased, among them whenever they are not blank; never an empty
/// name, and never one twice. So a window whose app id is the class, the stem or the program
/// in any case lights the launcher.
pub proof fn law_identities(wm_class: Option<Seq<char>>, path: Seq<char>, exec: Option<Seq<char>>)
    ensures
        ({
            let ids = distinct_folded(identity_candidates(wm_class, path, exec));
            &&& wm_class matches Some(c) ==> (folded(c).len() > 0 ==> ids.len() > 0 && ids[0]
                == folded(c))
            &&& crate::strings::file_stem(path) matches Some(stem) ==> (folded(stem).len() > 0
                ==> ids.contains(folded(stem)))
            &&& (exec matches Some(e) ==> (first_word(e) matches Some(program) ==> (
                crate::strings::file_name(program) matches Some(name) ==> (folded(name).len() > 0
                ==> ids.contains(folded(name))))))
            &&& forall|i: int| 0 <= i < ids.len() ==> (#[trigger] ids[i]).len() > 0
            &&& ids.no_duplicates()
        }),
{
    let c = identity_candidates(wm_class, path, exec);
    lemma_folded_distinct(c);
    let from_class = match wm_class {
        Some(k) => seq![k],
        None => Seq::<Seq<char>>::empty(),
    };
    let from_path = match crate::strings::file_stem(path) {
        Some(stem) => seq![stem],
        None => Seq::<Seq<char>>::empty(),
    };
    match wm_class {
        Some(k) => {
            if folded(k).len() > 0 {
                assert(c[0] == k);
                lemma_folded_first(c);
            }
        },
        None => {},
    }
    match crate::strings::file_stem(path) {
        Some(stem) => {
            if folded(stem).len() > 0 {
                assert(c[from_class.len() as int] == stem);
                lemma_folded_kept(c, from_class.len() as int);
            }
        },
        None => {},
    }
    match exec {
        Some(e) => match first_word(e) {
            Some(program) => match crate::strings::file_name(program) {
                Some(name) => {
                    if folded(name).len() > 0 {
                        assert(c[(from_class.len() + from_path.len()) as int] == name);
                        lemma_folded_kept(c, (from_class.len() + from_path.len()) as int);
                    }
                },
                None => {},
            },
            None => {},
        },
        None => {},
    }
}

/// Whether `names` holds `name`.
fn holds(names: &Vec<String>, name: &String) -> (r: bool)
    ensures
        r == names.deep_view().contains(name@),
{
    let mut i: usize = 0;
    while i < names.len()
        invariant
            i <= names.len(),
            forall|j: int| 0 <= j < i ==> names.deep_view()[j] != name@,
        decreases names.len() - i,
    {
        if names[i] == *name {
            assert(names.deep_view()[i as int] == name@);
            return true;
        }
        i = i + 1;
    }
    false
}

/// The names a launcher's windows might appear under, folded, in descending order of how much
/// they can be trusted:
///
/// 1. `StartupWMClass`, which is the application saying so itself.
/// 2. The desktop file's stem, which is the convention `app_id` is *supposed* to follow.
/// 3. The `Exec` line's program name, which is a guess -- but a good one.
pub fn identities(entry: &DesktopEntry, path: &str) -> (r: Vec<String>)
    ensures
        r.deep_view() == distinct_folded(
            identity_candidates(entry@.startup_wm_class, path@, entry@.exec_line),
        ),
{
    let mut candidates: Vec<String> = Vec::new();
    match &entry.startup_wm_class {
        Some(c) => candidates.push(c.clone()),
        None => {},
    }
    let path_chars = chars_of(path);
    match crate::strings::stem_of(path_chars.as_slice()) {
        Some(stem) => candidates.push(string_of(stem.as_slice())),
        None => {},
    }
    match &entry.exec_line {
        Some(e) => {
            let chars = chars_of(e.as_str());
            match first_word_of(chars.as_slice()) {
                Some(program) => match crate::strings::name_of(program.as_slice()) {
                    Some(name) => candidates.push(string_of(name.as_slice())),
                    None => {},
                },
                None => {},
            }
        },
        None => {},
    }
    let ghost all = identity_candidates(entry@.startup_wm_class, path@, entry@.exec_line);
    assert(candidates.deep_view() =~= all);
    let mut names: Vec<String> = Vec::new();
    assert(all.subrange(0, 0) =~= Seq::<Seq<char>>::empty());
    assert(names.deep_view() =~= Seq::<Seq<char>>::empty());
    for i in 0..candidates.len()
        invariant
            all == candidates.deep_view(),
            names.deep_view() == distinct_folded(all.subrange(0, i as int)),
    {
        assert(all.subrange(0, i + 1).drop_last() =~= all.subrange(0, i as int));
        assert(all.subrange(0, i + 1).last() == candidates@[i as int]@);
        let c = chars_of(candidates[i].as_str());
        let t = string_of(trimmed(c.as_slice()).as_slice());
        let name = to_lowercase(t.as_str());
        if !name.as_str().is_empty() && !holds(&names, &name) {
            let ghost before = names.deep_view();
            names.push(name);
            assert(names.deep_view() =~= before.push(name@));
        }
    }
    assert(all.subrange(0, all.len() as int) =~= all);
    names
}

/// The first word of `s`.
fn first_word_of(s: &[char]) -> (r: Option<Vec<char>>)
    ensures
        crate::locale::vec_opt_view(r) == first_word(s@),
{
    let mut start: usize = 0;
    while start < s.len() && crate::strings::space(s[start])
        invariant
            start <= s.len(),
            crate::strings::skip_space(s@, start as int) == crate::strings::skip_space(s@, 0),
        decreases s.len() - start,
    {
        start = start + 1;
    }
    if start >= s.len() {
        return None;
    }
    let mut end = start;
    while end < s.len() && !crate::strings::space(s[end])
        invariant
            start <= end <= s.len(),
            word_end(s@, end as int) == word_end(s@, start as int),
        decreases s.len() - end,
    {
        end = end + 1;
    }
    Some(slice_of(s, start, end))
}

/// The windows open right now, by the toplevel handle's protocol id, each with its folded
/// application id.
#[derive(Debug)]
pub struct Running {
    /// Keyed by the toplevel handle's protocol id, since one application may have several
    /// windows and each closes separately.
    windows: HashMap<u32, String>,
}

impl View for Running {
    type V = Map<u32, Seq<char>>;

    closed spec fn view(&self) -> Map<u32, Seq<char>> {
        self.windows@.map_values(|s: String| s@)
    }
}

impl Running {
    /// No windows.
    pub fn new() -> (r: Self)
        ensures
            r@ == Map::<u32, Seq<char>>::empty(),
            r@.dom().finite(),
    {
        let r = Running { windows: HashMap::new() };
        assert(r@ =~= Map::<u32, Seq<char>>::empty());
        r
    }

    /// Record or update a window's application id.
    pub fn window(&mut self, id: u32, app_id: &str)
        ensures
            final(self)@ == old(self)@.insert(id, folded(app_id@)),
            final(self)@.dom().finite(),
    {
        broadcast use vstd::std_specs::hash::group_hash_axioms;

        let chars = chars_of(app_id);
        let t = string_of(trimmed(chars.as_slice()).as_slice());
        let name = to_lowercase(t.as_str());
        let ghost before = self.windows@;
        self.windows.insert(id, name);
        assert(self@ =~= before.map_values(|s: String| s@).insert(id, folded(app_id@)));
        assert(self@.dom() =~= self.windows@.dom());
    }

    /// A window has closed.
    pub fn closed(&mut self, id: u32)
        ensures
            final(self)@ == old(self)@.remove(id),
            final(self)@.dom().finite(),
            final(self)@.dom().len() == old(self)@.dom().len() - if old(self)@.contains_key(id) {
                1int
            } else {
                0int
            },
    {
        broadcast use vstd::std_specs::hash::group_hash_axioms;

        let ghost before = self.windows@;
        self.windows.remove(&id);
        assert(self@ =~= before.map_values(|s: String| s@).remove(id));
        assert(self@.dom() =~= self.windows@.dom());
        assert(old(self)@.dom() =~= before.dom());
    }

    /// Whether any open window matches one of `identities`.
    pub fn any(&self, identities: &[String]) -> (r: bool)
        ensures
            r == exists|id: u32|
                #![trigger self@[id]]
                self@.contains_key(id) && identities@.map_values(|s: String| s@).contains(self@[id]),
    {
        broadcast use vstd::std_specs::hash::group_hash_axioms;

        let ghost names = identities@.map_values(|s: String| s@);
        let ghost m = self.windows@;
        let values = self.windows.values();
        let ghost all = IteratorSpec::remaining(&values);
        assert(all.unref().to_set() == m.values());
        for v in it: values
            invariant
                names == identities@.map_values(|s: String| s@),
                m == self.windows@,
                it.seq() == all,
                all.unref().to_set() == m.values(),
                forall|k: int| 0 <= k < it.index() ==> !names.contains(#[trigger] all[k]@),
        {
            let ghost here = it.index();
            assert(0 <= here < all.len() && v == all[here]);
            for j in 0..identities.len()
                invariant
                    names == identities@.map_values(|s: String| s@),
                    m == self.windows@,
                    all.unref().to_set() == m.values(),
                    0 <= here < all.len(),
                    v == all[here],
                    forall|k: int| 0 <= k < j ==> names[k] != v@,
            {
                if identities[j] == *v {
                    proof {
                        assert(all.unref()[here] == *v);
                        assert(all.unref().to_set().contains(*v));
                        let id = choose|id: u32| m.contains_key(id) && m[id] == *v;
                        assert(self@[id] == v@);
                        assert(names[j as int] == v@);
                    }
                    return true;
                }
            }
        }
        proof {
            assert forall|id: u32| self@.contains_key(id) implies !names.contains(#[trigger] self@[id]) by {
                assert(m.values().contains(m[id]));
                assert(all.unref().to_set().contains(m[id]));
                let k = choose|k: int| 0 <= k < all.unref().len() && all.unref()[k] == m[id];
                assert(all[k]@ == self@[id]);
            }
        }
        false
    }

    /// How many windows are being tracked.
    pub fn len(&self) -> (r: usize)
        ensures
            r == self@.dom().len(),
    {
        broadcast use vstd::std_specs::hash::group_hash_axioms;

        assert(self@.dom() =~= self.windows@.dom());
        self.windows.len()
    }

    /// Whether no window is being tracked.
    pub fn is_empty(&self) -> (r: bool)
        ensures
            r == (self@.dom().len() == 0),
    {
        broadcast use vstd::std_specs::hash::group_hash_axioms;

        assert(self@.dom() =~= self.windows@.dom());
        let r = self.windows.is_empty();
        proof {
            if !r {
                let id = self.windows@.dom().choose();
                assert(self.windows@.dom().contains(id));
            }
        }
        r
    }
}

/// Closing a window forgets that window alone: one fewer is tracked if it was, and an
/// application still counts as running exactly when another of its windows stays open. So with
/// two `alacritty` windows, closing one leaves it running and closing the other stops it.
pub proof fn law_closing_forgets_only_that_window(
    windows: Map<u32, Seq<char>>,
    id: u32,
    identities: Seq<Seq<char>>,
)
    requires
        windows.dom().finite(),
    ensures
        windows.remove(id).dom().len() == windows.dom().len() - if windows.contains_key(id) {
            1int
        } else {
            0int
        },
        (exists|w: u32|
            #![trigger windows.remove(id)[w]]
            windows.remove(id).contains_key(w) && identities.contains(windows.remove(id)[w]))
            == (exists|w: u32|
            #![trigger windows[w]]
            w != id && windows.contains_key(w) && identities.contains(windows[w])),
{
    let after = windows.remove(id);
    if exists|w: u32| #![trigger windows[w]] w != id && windows.contains_key(w) && identities.contains(windows[w]) {
        let w = choose|w: u32| #![trigger windows[w]] w != id && windows.contains_key(w) && identities.contains(windows[w]);
        assert(after[w] == windows[w]);
    }
    if exists|w: u32| #![trigger after[w]] after.contains_key(w) && identities.contains(after[w]) {
        let w = choose|w: u32| #![trigger after[w]] after.contains_key(w) && identities.contains(after[w]);
        assert(windows[w] == after[w]);
    }
}

impl Default for Running {
    /// No windows.
    fn default() -> (r: Self)
        ensures
            r@ == Map::<u32, Seq<char>>::empty(),
    {
        Running::new()
    }
}

} // verus!
