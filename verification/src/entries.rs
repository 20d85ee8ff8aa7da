//! What is on the desktop: one entry per file, and enough about each to pick an icon.
//!
//! Deliberately shallow for ordinary files: the kind of a file comes from its metadata and
//! its extension. A `.desktop` file is the exception, because it *does* say what it should
//! look like; those are parsed into a [`Launcher`].
//!
//! The program reads the directory and the metadata; what an entry *is*, given those facts,
//! is decided here.

use vstd::prelude::*;

use crate::desktop_entry::{DesktopEntry, DesktopEntryView, EntryType};
use crate::running::{distinct_folded, identities, identity_candidates};
use crate::state::{less, lemma_less_irreflexive, lemma_less_total, lemma_less_transitive};
use crate::strings::{chars_of, copy_opt, copy_strings, file_name, opt_view, rfind_before, same_chars, slice_of, string_of};

verus! {

/// Which icon an entry gets.
#[derive(Debug, Clone, Copy, PartialEq, Eq, Structural)]
pub enum Kind {
    /// A directory: the folder icon.
    Directory,
    /// A `.desktop` launcher.
    Launcher,
    /// Anything with the execute bit: a script or a binary.
    Executable,
    /// Everything else.
    Plain,
}

/// What a `.desktop` launcher says that the desktop needs in order to draw it.
#[derive(Debug, Clone, PartialEq, Eq)]
pub struct Launcher {
    /// Only `Type=Application` entries stand on a magic carpet; a `Link` has no running state.
    pub is_application: bool,
    /// `Icon=`: the symbol to draw.
    pub icon: Option<String>,
    /// `X-WLRIX-Running-Icon=`: the symbol to draw instead while it is running.
    pub running_icon: Option<String>,
    /// The app ids its windows might use; see [`crate::running`].
    pub identities: Vec<String>,
}

/// The mathematical content of a [`Launcher`].
pub struct LauncherView {
    pub is_application: bool,
    pub icon: Option<Seq<char>>,
    pub running_icon: Option<Seq<char>>,
    pub identities: Seq<Seq<char>>,
}

/// One file on the desktop.
#[derive(Debug, Clone, PartialEq, Eq)]
pub struct Entry {
    /// Where the file is.
    pub path: String,
    /// The file name, and the entry's identity: positions are remembered under it, and
    /// selection and hit-testing name icons by it.
    pub name: String,
    /// What the label under the icon reads: the file name, except for a `.desktop` launcher
    /// that gives a `Name`.
    pub label: String,
    pub kind: Kind,
    /// Set for a `.desktop` file that parses.
    pub launcher: Option<Launcher>,
}

/// The mathematical content of an [`Entry`].
pub struct EntryView {
    pub path: Seq<char>,
    pub name: Seq<char>,
    pub label: Seq<char>,
    pub kind: Kind,
    pub launcher: Option<LauncherView>,
}

impl View for Launcher {
    type V = LauncherView;

    open spec fn view(&self) -> LauncherView {
        LauncherView {
            is_application: self.is_application,
            icon: opt_view(self.icon),
            running_icon: opt_view(self.running_icon),
            identities: self.identities.deep_view(),
        }
    }
}

impl View for Entry {
    type V = EntryView;

    open spec fn view(&self) -> EntryView {
        EntryView {
            path: self.path@,
            name: self.name@,
            label: self.label@,
            kind: self.kind,
            launcher: match self.launcher {
                Some(l) => Some(l@),
                None => None,
            },
        }
    }
}

impl Launcher {
    /// A copy with the same content.
    pub fn duplicate(&self) -> (r: Launcher)
        ensures
            r@ == self@,
    {
        Launcher {
            is_application: self.is_application,
            icon: copy_opt(&self.icon),
            running_icon: copy_opt(&self.running_icon),
            identities: copy_strings(&self.identities),
        }
    }
}

impl Entry {
    /// A copy with the same content.
    pub fn duplicate(&self) -> (r: Entry)
        ensures
            r@ == self@,
    {
        let launcher = match &self.launcher {
            Some(l) => Some(l.duplicate()),
            None => None,
        };
        Entry {
            path: self.path.clone(),
            name: self.name.clone(),
            label: self.label.clone(),
            kind: self.kind,
            launcher,
        }
    }
}


/// What the file system says about a path: whether it is a directory, and its permission
/// bits.
#[derive(Debug, Clone, Copy, PartialEq, Eq)]
pub struct FileFacts {
    pub is_dir: bool,
    pub mode: u32,
}

/// A file name's extension, as `Path::extension` gives it: what follows the last dot, unless
/// that dot is the first character.
pub open spec fn extension(name: Seq<char>) -> Option<Seq<char>> {
    match rfind_before(name, '.', name.len() as int) {
        Some(k) => if k > 0 {
            Some(name.subrange(k + 1, name.len() as int))
        } else {
            None
        },
        None => None,
    }
}

/// Whether any of the three execute bits is set.
pub open spec fn executable_mode(mode: u32) -> bool {
    mode & 0o111 != 0
}

/// The kind of the file `name` with these facts.
pub open spec fn kind_of(name: Seq<char>, facts: FileFacts) -> Kind {
    if facts.is_dir {
        Kind::Directory
    } else if extension(name) == Some("desktop"@) {
        Kind::Launcher
    } else if executable_mode(facts.mode) {
        Kind::Executable
    } else {
        Kind::Plain
    }
}

/// What a launcher's parsed file gives the desktop.
pub open spec fn launcher_of(path: Seq<char>, e: DesktopEntryView) -> LauncherView {
    LauncherView {
        is_application: e.entry_type == EntryType::Application,
        icon: e.icon,
        running_icon: e.running_icon,
        identities: distinct_folded(identity_candidates(e.startup_wm_class, path, e.exec_line)),
    }
}

/// The entry for `path`: none for a path with no usable name, a dotfile, or one the file
/// system could say nothing about. A launcher's parsed file gives it its label -- the `Name`
/// when there is one, else the file name -- and what it needs to be drawn; a file parsed as
/// anything but a launcher is not consulted.
pub open spec fn entry_at(path: Seq<char>, facts: Option<FileFacts>, desktop: Option<DesktopEntryView>) -> Option<
    EntryView,
> {
    match file_name(path) {
        None => None,
        Some(name) => if name.len() > 0 && name[0] == '.' {
            None
        } else {
            match facts {
                None => None,
                Some(f) => {
                    let kind = kind_of(name, f);
                    let d = if kind == Kind::Launcher {
                        desktop
                    } else {
                        None
                    };
                    let label = match d {
                        Some(e) => match e.name {
                            Some(n) => n,
                            None => name,
                        },
                        None => name,
                    };
                    Some(
                        EntryView {
                            path,
                            name,
                            label,
                            kind,
                            launcher: match d {
                                Some(e) => Some(launcher_of(path, e)),
                                None => None,
                            },
                        },
                    )
                },
            }
        },
    }
}

/// The view of an optional entry.
pub open spec fn entry_opt_view(o: Option<Entry>) -> Option<EntryView> {
    match o {
        Some(e) => Some(e@),
        None => None,
    }
}

/// The view of an optional parsed desktop file.
pub open spec fn desktop_opt_view(o: Option<DesktopEntry>) -> Option<DesktopEntryView> {
    match o {
        Some(e) => Some(e@),
        None => None,
    }
}

impl Entry {
    /// Classify one path. `facts` is what the file system said of it, `None` when it could say
    /// nothing (a dangling link); `desktop` is the file parsed as a desktop entry, which only a
    /// launcher consults.
    pub fn at(path: &str, facts: Option<FileFacts>, desktop: Option<DesktopEntry>) -> (r: Option<
        Self,
    >)
        ensures
            entry_opt_view(r) == entry_at(path@, facts, desktop_opt_view(desktop)),
    {
        let pc = chars_of(path);
        let name = match crate::strings::name_of(pc.as_slice()) {
            Some(n) => n,
            None => return None,
        };
        if name.len() > 0 && name[0] == '.' {
            return None;
        }
        let f = match facts {
            Some(f) => f,
            None => return None,
        };
        let kind = if f.is_dir {
            Kind::Directory
        } else if has_desktop_extension(name.as_slice()) {
            Kind::Launcher
        } else if f.mode & 0o111 != 0 {
            Kind::Executable
        } else {
            Kind::Plain
        };
        let d = match kind {
            Kind::Launcher => desktop,
            _ => None,
        };
        let label = match &d {
            Some(e) => match &e.name {
                Some(n) => n.clone(),
                None => string_of(name.as_slice()),
            },
            None => string_of(name.as_slice()),
        };
        let launcher = match &d {
            Some(e) => Some(
                Launcher {
                    is_application: e.entry_type == EntryType::Application,
                    icon: copy_opt(&e.icon),
                    running_icon: copy_opt(&e.running_icon),
                    identities: identities(e, path),
                },
            ),
            None => None,
        };
        Some(Entry { path: string_of(pc.as_slice()), name: string_of(name.as_slice()), label, kind, launcher })
    }
}

/// Whether a file name's extension is `desktop`.
fn has_desktop_extension(name: &[char]) -> (r: bool)
    ensures
        r == (extension(name@) == Some("desktop"@)),
{
    let mut j = name.len();
    while j > 0 && name[j - 1] != '.'
        invariant
            j <= name.len(),
            rfind_before(name@, '.', j as int) == rfind_before(name@, '.', name@.len() as int),
        decreases j,
    {
        j = j - 1;
    }
    if j <= 1 {
        return false;
    }
    let ext = slice_of(name, j, name.len());
    let want = chars_of("desktop");
    same_chars(ext.as_slice(), want.as_slice())
}

/// Whether `a` comes before `b` on the desktop: by label, the file name breaking ties.
pub open spec fn entry_before(a: EntryView, b: EntryView) -> bool {
    less(a.label, b.label) || (a.label == b.label && less(a.name, b.name))
}

/// No entry comes before itself.
pub proof fn lemma_before_irreflexive(a: EntryView)
    ensures
        !entry_before(a, a),
{
    lemma_less_irreflexive(a.label);
    lemma_less_irreflexive(a.name);
}

/// Coming before is transitive.
pub proof fn lemma_before_transitive(a: EntryView, b: EntryView, c: EntryView)
    requires
        entry_before(a, b),
        entry_before(b, c),
    ensures
        entry_before(a, c),
{
    if less(a.label, b.label) && less(b.label, c.label) {
        lemma_less_transitive(a.label, b.label, c.label);
    } else if less(a.label, b.label) {
    } else if less(b.label, c.label) {
    } else {
        lemma_less_transitive(a.name, b.name, c.name);
    }
}

/// Entries with distinct names in desktop order are in strictly ascending order: every one
/// comes before each that follows it, by label and then by name. The file names in one
/// directory are distinct, so what [`sort_entries`] hands back for a directory is ordered
/// strictly.
pub proof fn law_desktop_order_is_strict(v: Seq<EntryView>)
    requires
        in_desktop_order(v),
        forall|i: int, j: int| 0 <= i < j < v.len() ==> (#[trigger] v[i]).name != (#[trigger] v[j]).name,
    ensures
        forall|i: int, j: int| 0 <= i < j < v.len() ==> entry_before(#[trigger] v[i], #[trigger] v[j]),
{
    assert forall|i: int, j: int| 0 <= i < j < v.len() implies entry_before(#[trigger] v[i], #[trigger] v[j]) by {
        assert(!entry_before(v[j], v[i]));
        if v[i].label == v[j].label {
            lemma_less_total(v[i].name, v[j].name);
        } else {
            lemma_less_total(v[i].label, v[j].label);
        }
    }
}

/// The views of a list of entries.
pub open spec fn entry_views(v: Seq<Entry>) -> Seq<EntryView> {
    v.map_values(|e: Entry| e@)
}

/// No entry comes before one earlier in the list.
pub open spec fn in_desktop_order(v: Seq<EntryView>) -> bool {
    forall|i: int, j: int| 0 <= i < j < v.len() ==> !entry_before(#[trigger] v[j], #[trigger] v[i])
}

/// Whether `a` comes before `b`.
fn comes_before(a: &Entry, b: &Entry) -> (r: bool)
    ensures
        r == entry_before(a@, b@),
{
    let al = chars_of(a.label.as_str());
    let bl = chars_of(b.label.as_str());
    if crate::state::sorts_before(al.as_slice(), bl.as_slice()) {
        return true;
    }
    if !same_chars(al.as_slice(), bl.as_slice()) {
        return false;
    }
    let an = chars_of(a.name.as_str());
    let bn = chars_of(b.name.as_str());
    crate::state::sorts_before(an.as_slice(), bn.as_slice())
}

/// Everything on the desktop, in a stable order: by *label*, so the order on screen is the
/// order of the words underneath the icons, the file name breaking ties.
pub fn sort_entries(entries: Vec<Entry>) -> (r: Vec<Entry>)
    ensures
        entry_views(r@).to_multiset() == entry_views(entries@).to_multiset(),
        in_desktop_order(entry_views(r@)),
{
    broadcast use vstd::seq_lib::group_to_multiset_ensures;

    let mut sorted: Vec<Entry> = Vec::new();
    let mut rest = entries;
    let ghost all = entry_views(rest@);
    assert(entry_views(sorted@) =~= Seq::<EntryView>::empty());
    while rest.len() > 0
        invariant
            entry_views(sorted@).to_multiset().add(entry_views(rest@).to_multiset())
                == all.to_multiset(),
            in_desktop_order(entry_views(sorted@)),
        decreases rest.len(),
    {
        let ghost rv = entry_views(rest@);
        let x = rest.pop().unwrap();
        assert(entry_views(rest@) =~= rv.drop_last());
        assert(rv =~= entry_views(rest@).push(x@));
        let mut p: usize = 0;
        while p < sorted.len() && !comes_before(&x, &sorted[p])
            invariant
                p <= sorted.len(),
                forall|i: int| 0 <= i < p ==> !entry_before(x@, #[trigger] entry_views(sorted@)[i]),
            decreases sorted.len() - p,
        {
            p = p + 1;
        }
        let ghost sv = entry_views(sorted@);
        let ghost xv = x@;
        proof {
            assert forall|j: int| p <= j < sv.len() implies !entry_before(#[trigger] sv[j], xv) by {
                if entry_before(sv[j], xv) {
                    assert(entry_before(xv, sv[p as int]));
                    if j == p {
                        lemma_before_transitive(sv[j], xv, sv[j]);
                        lemma_before_irreflexive(sv[j]);
                    } else {
                        lemma_before_transitive(sv[j], xv, sv[p as int]);
                        assert(!entry_before(sv[j], sv[p as int]));
                    }
                }
            }
        }
        sorted.insert(p, x);
        proof {
            assert(entry_views(sorted@) =~= sv.insert(p as int, xv));
            broadcast use vstd::multiset::group_multiset_axioms;
            vstd::seq_lib::to_multiset_insert(sv, p as int, xv);
            vstd::seq_lib::to_multiset_build(entry_views(rest@), xv);
            assert(entry_views(sorted@).to_multiset() == sv.to_multiset().insert(xv));
            assert(rv.to_multiset() == entry_views(rest@).to_multiset().insert(xv));
            assert(entry_views(sorted@).to_multiset().add(entry_views(rest@).to_multiset())
                =~= sv.to_multiset().add(rv.to_multiset()));
            let nv = entry_views(sorted@);
            assert forall|i: int, j: int| 0 <= i < j < nv.len() implies !entry_before(
                #[trigger] nv[j],
                #[trigger] nv[i],
            ) by {
                if j < p {
                    assert(nv[i] == sv[i] && nv[j] == sv[j]);
                } else if j == p {
                    assert(nv[i] == sv[i]);
                } else if i < p {
                    assert(nv[i] == sv[i] && nv[j] == sv[j - 1]);
                } else if i == p {
                    assert(nv[j] == sv[j - 1]);
                } else {
                    assert(nv[i] == sv[i - 1] && nv[j] == sv[j - 1]);
                }
            }
        }
    }
    assert(entry_views(rest@) =~= Seq::<EntryView>::empty());
    sorted
}

} // verus!
