//! Where the icons were left: the machine-written half of the settings.
//!
//! ```toml
//! # $XDG_STATE_HOME/wlrix/desktop-icons.toml
//! snap_to_grid = true
//!
//! [[icon]]
//! name = "notes.txt"
//! slot = 3
//!
//! [[icon]]
//! name = "photo.png"
//! x = 412
//! y = 260
//! ```
//!
//! [`crate::config`] is hand-edited and holds *defaults*; this is written by the program and
//! holds *what is true right now*. An icon is keyed by file name, not path, so the desktop
//! directory can move without every icon forgetting its place. The program reads and writes
//! the file; what it holds, and how a layout is pinned into it, is decided here.

use vstd::prelude::*;

use crate::entries::Entry;
use crate::layout::{arrange_remembered, arranged_from, law_arrange_is_stable, lemma_arrange_len, spec_arrange, Grid, Placed, Point, Spot};
use crate::strings::chars_of;

verus! {

/// One icon's remembered position, as the file writes it. Either a slot or a free point,
/// never both -- but the file is not trusted to say so.
#[derive(Debug, Clone, PartialEq, Eq)]
pub struct IconState {
    pub name: String,
    pub slot: Option<i32>,
    pub x: Option<i32>,
    pub y: Option<i32>,
}

/// The state file as it is written.
#[derive(Debug, Clone, PartialEq, Eq)]
pub struct StateFile {
    /// The live snap setting. Absent on the first run, when the config's default stands.
    pub snap_to_grid: Option<bool>,
    pub icons: Vec<IconState>,
}

/// The spot an icon's record describes: a slot that is not negative wins, as the more
/// specific claim; else a free point when both coordinates are there; else nothing usable.
pub open spec fn icon_spot(slot: Option<i32>, x: Option<i32>, y: Option<i32>) -> Option<Spot> {
    match slot {
        Some(s) if s >= 0 => Some(Spot::Slot(s)),
        _ => match (x, y) {
            (Some(x), Some(y)) => Some(Spot::Free(Point { x, y })),
            _ => None,
        },
    }
}

impl IconState {
    /// The spot this record describes, resolving a malformed one rather than refusing it.
    pub fn spot(&self) -> (r: Option<Spot>)
        ensures
            r == icon_spot(self.slot, self.x, self.y),
    {
        match self.slot {
            Some(slot) => {
                if slot >= 0 {
                    return Some(Spot::Slot(slot));
                }
            },
            None => {},
        }
        match (self.x, self.y) {
            (Some(x), Some(y)) => Some(Spot::Free(Point::new(x, y))),
            _ => None,
        }
    }

    /// The record for `name` at `spot`.
    pub fn from_spot(name: &str, spot: Spot) -> (r: Self)
        ensures
            r.name@ == name@,
            icon_spot(r.slot, r.x, r.y) == (match spot {
                Spot::Slot(s) => if s >= 0 {
                    Some(spot)
                } else {
                    None
                },
                Spot::Free(_) => Some(spot),
            }),
            match spot {
                Spot::Slot(s) => r.slot == Some(s) && r.x is None && r.y is None,
                Spot::Free(p) => r.slot is None && r.x == Some(p.x) && r.y == Some(p.y),
            },
    {
        let chars = chars_of(name);
        let name = crate::strings::string_of(chars.as_slice());
        match spot {
            Spot::Slot(slot) => IconState { name, slot: Some(slot), x: None, y: None },
            Spot::Free(point) => IconState { name, slot: None, x: Some(point.x), y: Some(point.y) },
        }
    }
}

/// Whether `a` sorts before `b`: by the code points of their characters, which is the order
/// of their UTF-8 bytes, a proper prefix first.
pub open spec fn less(a: Seq<char>, b: Seq<char>) -> bool
    decreases a.len(),
{
    if a.len() == 0 {
        b.len() > 0
    } else if b.len() == 0 {
        false
    } else if a[0] != b[0] {
        (a[0] as int) < (b[0] as int)
    } else {
        less(a.drop_first(), b.drop_first())
    }
}

/// Nothing sorts before itself.
pub proof fn lemma_less_irreflexive(a: Seq<char>)
    ensures
        !less(a, a),
    decreases a.len(),
{
    if a.len() > 0 {
        lemma_less_irreflexive(a.drop_first());
    }
}

/// Sorting is transitive.
pub proof fn lemma_less_transitive(a: Seq<char>, b: Seq<char>, c: Seq<char>)
    requires
        less(a, b),
        less(b, c),
    ensures
        less(a, c),
    decreases a.len(),
{
    if a.len() > 0 && b.len() > 0 && c.len() > 0 {
        if a[0] == b[0] && b[0] == c[0] {
            lemma_less_transitive(a.drop_first(), b.drop_first(), c.drop_first());
        }
    }
}

/// Two different names are in one order or the other.
pub proof fn lemma_less_total(a: Seq<char>, b: Seq<char>)
    requires
        a != b,
    ensures
        less(a, b) || less(b, a),
    decreases a.len(),
{
    if a.len() > 0 && b.len() > 0 && a[0] == b[0] {
        if a.drop_first() == b.drop_first() {
            assert(a =~= seq![a[0]] + a.drop_first());
            assert(b =~= seq![b[0]] + b.drop_first());
        }
        lemma_less_total(a.drop_first(), b.drop_first());
    } else if a.len() > 0 && b.len() > 0 {
    } else if a.len() == 0 && b.len() == 0 {
        assert(a =~= b);
    }
}

/// Whether `a` sorts before `b`.
pub fn sorts_before(a: &[char], b: &[char]) -> (r: bool)
    ensures
        r == less(a@, b@),
{
    let mut i: usize = 0;
    assert(a@.skip(0) =~= a@);
    assert(b@.skip(0) =~= b@);
    while i < a.len() && i < b.len() && a[i] == b[i]
        invariant
            i <= a.len(),
            i <= b.len(),
            less(a@.skip(i as int), b@.skip(i as int)) == less(a@, b@),
        decreases a.len() - i,
    {
        assert(a@.skip(i as int).drop_first() =~= a@.skip(i + 1));
        assert(b@.skip(i as int).drop_first() =~= b@.skip(i + 1));
        i = i + 1;
    }
    if i == a.len() {
        i < b.len()
    } else if i == b.len() {
        false
    } else {
        assert(a@.skip(i as int)[0] == a@[i as int]);
        assert(b@.skip(i as int)[0] == b@[i as int]);
        a[i] < b[i]
    }
}

/// The remembered desktop, in memory: every name with its spot, kept sorted by name so the
/// file is written in a stable order and a diff of it shows only what actually moved.
#[derive(Debug)]
pub struct State {
    spots: Vec<(String, Spot)>,
    snap_to_grid: Option<bool>,
    /// Set when something has changed and the file is due a rewrite.
    dirty: bool,
}

/// The mathematical content of a [`State`].
pub struct StateView {
    pub spots: Map<Seq<char>, Spot>,
    pub snap_to_grid: Option<bool>,
    pub dirty: bool,
}

spec fn pv(pairs: Seq<(String, Spot)>) -> Seq<(Seq<char>, Spot)> {
    pairs.map_values(|p: (String, Spot)| (p.0@, p.1))
}

/// The names of a list of pairs.
pub open spec fn keys(pairs: Seq<(Seq<char>, Spot)>) -> Seq<Seq<char>> {
    pairs.map_values(|p: (Seq<char>, Spot)| p.0)
}

/// The names, in strictly increasing order.
pub open spec fn strictly_sorted(names: Seq<Seq<char>>) -> bool {
    forall|i: int, j: int| 0 <= i < j < names.len() ==> less(#[trigger] names[i], #[trigger] names[j])
}

/// A position in `pairs` of the name `k`, when there is one.
pub open spec fn index_of(pairs: Seq<(Seq<char>, Spot)>, k: Seq<char>) -> int {
    choose|i: int| 0 <= i < pairs.len() && #[trigger] pairs[i].0 == k
}

/// The map a list of pairs with distinct names describes.
pub open spec fn pairs_map(pairs: Seq<(Seq<char>, Spot)>) -> Map<Seq<char>, Spot> {
    Map::new(
        |k: Seq<char>| exists|i: int| 0 <= i < pairs.len() && #[trigger] pairs[i].0 == k,
        |k: Seq<char>| pairs[index_of(pairs, k)].1,
    )
}

impl State {
    #[verifier::type_invariant]
    spec fn sorted(self) -> bool {
        strictly_sorted(keys(pv(self.spots@)))
    }
}

impl View for State {
    type V = StateView;

    closed spec fn view(&self) -> StateView {
        StateView {
            spots: pairs_map(pv(self.spots@)),
            snap_to_grid: self.snap_to_grid,
            dirty: self.dirty,
        }
    }
}

/// What the map says of `name`.
pub open spec fn lookup(spots: Map<Seq<char>, Spot>, name: Seq<char>) -> Option<Spot> {
    if spots.contains_key(name) {
        Some(spots[name])
    } else {
        None
    }
}

/// Remembering `spot` for `name`: a change only when it is not already what is remembered.
pub open spec fn with_spot(s: StateView, name: Seq<char>, spot: Spot) -> StateView {
    if lookup(s.spots, name) == Some(spot) {
        s
    } else {
        StateView { spots: s.spots.insert(name, spot), dirty: true, ..s }
    }
}

/// Remembering where every icon of a layout landed, in order.
pub open spec fn pinned(s: StateView, placed: Seq<Placed>) -> StateView
    decreases placed.len(),
{
    if placed.len() == 0 {
        s
    } else {
        let prev = pinned(s, placed.drop_last());
        with_spot(prev, placed.last().entry.name@, placed.last().spot)
    }
}

/// What is remembered for each entry, in order.
pub open spec fn remembered_for(spots: Map<Seq<char>, Spot>, entries: Seq<Entry>) -> Seq<Option<Spot>> {
    Seq::new(entries.len(), |i: int| lookup(spots, entries[i].name@))
}

/// The positions a state file describes: each usable record in turn, a later record for the
/// same name winning.
pub open spec fn file_spots(icons: Seq<IconState>) -> Map<Seq<char>, Spot>
    decreases icons.len(),
{
    if icons.len() == 0 {
        Map::empty()
    } else {
        let prev = file_spots(icons.drop_last());
        let last = icons.last();
        match icon_spot(last.slot, last.x, last.y) {
            Some(s) => prev.insert(last.name@, s),
            None => prev,
        }
    }
}

/// In a strictly sorted list a name occurs once.
proof fn lemma_unique(pairs: Seq<(Seq<char>, Spot)>, i: int, j: int)
    requires
        strictly_sorted(keys(pairs)),
        0 <= i < pairs.len(),
        0 <= j < pairs.len(),
        pairs[i].0 == pairs[j].0,
    ensures
        i == j,
{
    if i != j {
        assert(keys(pairs)[i] == pairs[i].0);
        assert(keys(pairs)[j] == pairs[j].0);
        lemma_less_irreflexive(pairs[i].0);
    }
}

/// In a strictly sorted list, the map holds each pair.
proof fn lemma_pairs_map(pairs: Seq<(Seq<char>, Spot)>, i: int)
    requires
        strictly_sorted(keys(pairs)),
        0 <= i < pairs.len(),
    ensures
        pairs_map(pairs).contains_key(pairs[i].0),
        pairs_map(pairs)[pairs[i].0] == pairs[i].1,
{
    let k = pairs[i].0;
    assert(exists|j: int| 0 <= j < pairs.len() && #[trigger] pairs[j].0 == k);
    let j = index_of(pairs, k);
    lemma_unique(pairs, i, j);
    assert(pairs_map(pairs).contains_key(k));
    assert(pairs_map(pairs)[k] == pairs[j].1);
}

/// Putting `(name, spot)` in at `at` -- replacing what is there when `found` -- keeps a
/// sorted list sorted, and its map is the old one with `name` set to `spot`.
proof fn lemma_inserted(
    before: Seq<(Seq<char>, Spot)>,
    at: int,
    found: bool,
    name: Seq<char>,
    spot: Spot,
    after: Seq<(Seq<char>, Spot)>,
)
    requires
        strictly_sorted(keys(before)),
        0 <= at <= before.len(),
        found ==> at < before.len() && before[at].0 == name,
        forall|j: int| 0 <= j < at ==> less(#[trigger] before[j].0, name),
        !found ==> forall|j: int| at <= j < before.len() ==> less(name, #[trigger] before[j].0),
        after == before.take(at) + seq![(name, spot)] + before.skip(
            if found {
                at + 1
            } else {
                at
            },
        ),
    ensures
        strictly_sorted(keys(after)),
        pairs_map(after) == pairs_map(before).insert(name, spot),
{
    let rest = if found {
        at + 1
    } else {
        at
    };
    let shift = rest - at - 1;
    assert(after.len() == before.len() - rest + at + 1);
    assert forall|j: int| 0 <= j < after.len() implies #[trigger] after[j] == (if j < at {
        before[j]
    } else if j == at {
        (name, spot)
    } else {
        before[j + shift]
    }) by {}
    // Everything after the new pair sorts after its name.
    assert forall|j: int| rest <= j < before.len() implies less(name, #[trigger] before[j].0) by {
        if found {
            assert(keys(before)[at] == before[at].0);
            assert(keys(before)[j] == before[j].0);
        }
    }
    assert forall|a: int, b: int| 0 <= a < b < after.len() implies less(
        #[trigger] keys(after)[a],
        #[trigger] keys(after)[b],
    ) by {
        let ka = keys(after)[a];
        let kb = keys(after)[b];
        if b < at {
            assert(keys(before)[a] == ka && keys(before)[b] == kb);
        } else if b == at {
        } else if a < at {
            assert(less(ka, name));
            assert(less(name, kb));
            lemma_less_transitive(ka, name, kb);
        } else if a == at {
        } else {
            assert(keys(before)[a + shift] == ka && keys(before)[b + shift] == kb);
        }
    }
    let m = pairs_map(before).insert(name, spot);
    assert forall|k: Seq<char>| #[trigger] pairs_map(after).contains_key(k) <==> m.contains_key(k) by {
        if pairs_map(after).contains_key(k) {
            let j = choose|j: int| 0 <= j < after.len() && #[trigger] after[j].0 == k;
            if j < at {
                assert(before[j].0 == k);
            } else if j > at {
                assert(before[j + shift].0 == k);
            }
        }
        if m.contains_key(k) && k != name {
            let i = choose|i: int| 0 <= i < before.len() && #[trigger] before[i].0 == k;
            if i < at {
                assert(after[i].0 == k);
            } else if i >= rest {
                assert(after[i - shift].0 == k);
            } else {
                assert(found && i == at);
            }
        }
        if k == name {
            assert(after[at].0 == k);
        }
    }
    assert forall|k: Seq<char>| #[trigger] pairs_map(after).contains_key(k) implies pairs_map(after)[k] == m[k] by {
        let j = choose|j: int| 0 <= j < after.len() && #[trigger] after[j].0 == k;
        lemma_pairs_map(after, j);
        lemma_less_irreflexive(name);
        if j < at {
            assert(after[j] == before[j]);
            assert(less(before[j].0, name));
            lemma_pairs_map(before, j);
            assert(k != name);
        } else if j > at {
            assert(after[j] == before[j + shift]);
            assert(less(name, before[j + shift].0));
            lemma_pairs_map(before, j + shift);
            assert(k != name);
        } else {
            assert(after[j] == (name, spot));
        }
    }
    assert(pairs_map(after) =~= m);
}

impl State {
    /// Nothing remembered, and nothing to save.
    pub fn new() -> (s: Self)
        ensures
            s@.spots == Map::<Seq<char>, Spot>::empty(),
            s@.snap_to_grid is None,
            !s@.dirty,
    {
        let s = State { spots: Vec::new(), snap_to_grid: None, dirty: false };
        assert(pairs_map(pv(s.spots@)) =~= Map::<Seq<char>, Spot>::empty());
        s
    }

    /// Where `name` sits in the sorted list, and whether it is there.
    fn position(&self, name: &[char]) -> (r: (usize, bool))
        ensures
            r.0 <= self.spots.len(),
            forall|i: int| 0 <= i < r.0 ==> less(#[trigger] pv(self.spots@)[i].0, name@),
            r.1 ==> r.0 < self.spots.len() && pv(self.spots@)[r.0 as int].0 == name@,
            !r.1 ==> forall|i: int|
                r.0 <= i < self.spots.len() ==> less(name@, #[trigger] pv(self.spots@)[i].0),
    {
        proof {
            use_type_invariant(self);
        }
        let ghost pairs = pv(self.spots@);
        let mut i: usize = 0;
        while i < self.spots.len()
            invariant
                i <= self.spots.len(),
                pairs == pv(self.spots@),
                strictly_sorted(keys(pairs)),
                forall|j: int| 0 <= j < i ==> less(#[trigger] pairs[j].0, name@),
            decreases self.spots.len() - i,
        {
            let key = chars_of(self.spots[i].0.as_str());
            assert(key@ == pairs[i as int].0);
            if !sorts_before(key.as_slice(), name) {
                if crate::strings::same_chars(key.as_slice(), name) {
                    return (i, true);
                }
                proof {
                    lemma_less_total(key@, name@);
                    assert forall|j: int| i <= j < self.spots.len() implies less(
                        name@,
                        #[trigger] pairs[j].0,
                    ) by {
                        if j > i {
                            assert(keys(pairs)[i as int] == key@);
                            assert(keys(pairs)[j] == pairs[j].0);
                            lemma_less_transitive(name@, key@, pairs[j].0);
                        }
                    }
                }
                return (i, false);
            }
            i = i + 1;
        }
        (i, false)
    }

    /// Where `name` was left, if anywhere.
    pub fn spot(&self, name: &str) -> (r: Option<Spot>)
        ensures
            r == lookup(self@.spots, name@),
    {
        proof {
            use_type_invariant(self);
        }
        let ghost pairs = pv(self.spots@);
        let chars = chars_of(name);
        let (i, found) = self.position(chars.as_slice());
        if found {
            proof {
                lemma_pairs_map(pairs, i as int);
            }
            Some(self.spots[i].1)
        } else {
            proof {
                if pairs_map(pairs).contains_key(name@) {
                    let j = choose|j: int| 0 <= j < pairs.len() && #[trigger] pairs[j].0 == name@;
                    lemma_less_irreflexive(name@);
                    if j < i {
                        assert(less(pairs[j].0, name@));
                    } else {
                        assert(less(name@, pairs[j].0));
                    }
                }
            }
            None
        }
    }

    /// Set `name` to `spot` in the sorted list.
    fn put(&mut self, name: &[char], spot: Spot)
        ensures
            final(self)@.spots == old(self)@.spots.insert(name@, spot),
            final(self)@.snap_to_grid == old(self)@.snap_to_grid,
            final(self)@.dirty == old(self)@.dirty,
    {
        proof {
            use_type_invariant(&*self);
        }
        let (at, found) = self.position(name);
        let ghost before = pv(self.spots@);
        let rest = if found {
            at + 1
        } else {
            at
        };
        let mut spots: Vec<(String, Spot)> = Vec::new();
        let mut i: usize = 0;
        while i < at
            invariant
                before == pv(self.spots@),
                at <= self.spots.len(),
                i <= at,
                pv(spots@) == before.take(i as int),
            decreases at - i,
        {
            let ghost prev = pv(spots@);
            spots.push((self.spots[i].0.clone(), self.spots[i].1));
            assert(pv(spots@) =~= prev.push(before[i as int]));
            assert(before.take(i + 1) =~= before.take(i as int).push(before[i as int]));
            i = i + 1;
        }
        let ghost head = pv(spots@);
        spots.push((crate::strings::string_of(name), spot));
        assert(pv(spots@) =~= head.push((name@, spot)));
        let mut i = rest;
        while i < self.spots.len()
            invariant
                before == pv(self.spots@),
                rest <= i <= self.spots.len(),
                pv(spots@) == before.take(at as int) + seq![(name@, spot)] + before.subrange(
                    rest as int,
                    i as int,
                ),
            decreases self.spots.len() - i,
        {
            let ghost prev = pv(spots@);
            spots.push((self.spots[i].0.clone(), self.spots[i].1));
            assert(pv(spots@) =~= prev.push(before[i as int]));
            assert(before.subrange(rest as int, i + 1) =~= before.subrange(rest as int, i as int).push(before[i as int]));
            i = i + 1;
        }
        proof {
            assert(before.subrange(rest as int, before.len() as int) =~= before.skip(rest as int));
            lemma_inserted(before, at as int, found, name@, spot, pv(spots@));
        }
        self.spots = spots;
    }

    /// Remember where `name` is now. Only a real change marks the state for saving, so a
    /// redraw that re-asserts every position does not rewrite the file.
    pub fn set_spot(&mut self, name: &str, spot: Spot)
        ensures
            final(self)@ == with_spot(old(self)@, name@, spot),
    {
        let current = self.spot(name);
        if current == Some(spot) {
            return;
        }
        let chars = chars_of(name);
        self.put(chars.as_slice(), spot);
        proof {
            use_type_invariant(&*self);
        }
        self.dirty = true;
    }

    /// The live snap setting, falling back to the config's default on a first run.
    pub fn snap_to_grid(&self, default: bool) -> (r: bool)
        ensures
            r == match self@.snap_to_grid {
                Some(s) => s,
                None => default,
            },
    {
        match self.snap_to_grid {
            Some(s) => s,
            None => default,
        }
    }

    /// Set the live snap setting; only a change marks the state for saving.
    pub fn set_snap_to_grid(&mut self, snap: bool)
        ensures
            final(self)@.spots == old(self)@.spots,
            final(self)@.snap_to_grid == Some(snap),
            final(self)@.dirty == (old(self)@.dirty || old(self)@.snap_to_grid != Some(snap)),
    {
        proof {
            use_type_invariant(&*self);
        }
        if self.snap_to_grid == Some(snap) {
            return;
        }
        self.snap_to_grid = Some(snap);
        self.dirty = true;
    }

    /// Whether anything has changed since the last save.
    pub fn is_dirty(&self) -> (r: bool)
        ensures
            r == self@.dirty,
    {
        self.dirty
    }

    /// Record that what is in memory is now what is on disk.
    pub fn mark_saved(&mut self)
        ensures
            final(self)@.spots == old(self)@.spots,
            final(self)@.snap_to_grid == old(self)@.snap_to_grid,
            !final(self)@.dirty,
    {
        proof {
            use_type_invariant(&*self);
        }
        self.dirty = false;
    }
}


/// Whether a record writes down `spot`.
pub open spec fn records(icon: IconState, spot: Spot) -> bool {
    match spot {
        Spot::Slot(s) => icon.slot == Some(s) && icon.x is None && icon.y is None,
        Spot::Free(p) => icon.slot is None && icon.x == Some(p.x) && icon.y == Some(p.y),
    }
}

/// The names of a list of records.
pub open spec fn icon_names(icons: Seq<IconState>) -> Seq<Seq<char>> {
    icons.map_values(|i: IconState| i.name@)
}

/// The positions kept: those of names in `present`.
pub open spec fn kept_spots(spots: Map<Seq<char>, Spot>, present: Seq<Seq<char>>) -> Map<Seq<char>, Spot> {
    spots.restrict(Set::new(|k: Seq<char>| present.contains(k)))
}

impl State {
    /// The state a file describes. Nothing in it is due a rewrite.
    pub fn from_file(file: StateFile) -> (s: Self)
        ensures
            s@.spots == file_spots(file.icons@),
            s@.snap_to_grid == file.snap_to_grid,
            !s@.dirty,
    {
        let mut s = State::new();
        let ghost icons = file.icons@;
        assert(icons.take(0) =~= Seq::<IconState>::empty());
        for i in 0..file.icons.len()
            invariant
                icons == file.icons@,
                s@.spots == file_spots(icons.take(i as int)),
                s@.snap_to_grid is None,
                !s@.dirty,
        {
            assert(icons.take(i + 1).drop_last() =~= icons.take(i as int));
            match file.icons[i].spot() {
                Some(spot) => {
                    let chars = chars_of(file.icons[i].name.as_str());
                    s.put(chars.as_slice(), spot);
                },
                None => {},
            }
        }
        assert(icons.take(icons.len() as int) =~= icons);
        proof {
            use_type_invariant(&s);
        }
        s.snap_to_grid = file.snap_to_grid;
        s
    }

    /// The file to write: the snap setting, and every position in order of name.
    pub fn to_file(&self) -> (r: StateFile)
        ensures
            r.snap_to_grid == self@.snap_to_grid,
            strictly_sorted(icon_names(r.icons@)),
            forall|i: int|
                0 <= i < r.icons.len() ==> self@.spots.contains_key(#[trigger] r.icons@[i].name@)
                    && records(r.icons@[i], self@.spots[r.icons@[i].name@]),
            forall|k: Seq<char>|
                #[trigger] self@.spots.contains_key(k) ==> exists|i: int|
                    0 <= i < r.icons.len() && r.icons@[i].name@ == k,
    {
        proof {
            use_type_invariant(self);
        }
        let ghost pairs = pv(self.spots@);
        let mut icons: Vec<IconState> = Vec::new();
        let mut i: usize = 0;
        while i < self.spots.len()
            invariant
                i <= self.spots.len(),
                pairs == pv(self.spots@),
                strictly_sorted(keys(pairs)),
                icons.len() == i,
                forall|j: int|
                    0 <= j < i ==> #[trigger] icons@[j].name@ == pairs[j].0 && records(
                        icons@[j],
                        pairs[j].1,
                    ),
            decreases self.spots.len() - i,
        {
            let icon = IconState::from_spot(self.spots[i].0.as_str(), self.spots[i].1);
            assert(icon.name@ == pairs[i as int].0);
            assert(records(icon, pairs[i as int].1));
            icons.push(icon);
            assert(icons@[i as int] == icon);
            i = i + 1;
        }
        proof {
            assert forall|a: int, b: int| 0 <= a < b < icons.len() implies less(
                #[trigger] icon_names(icons@)[a],
                #[trigger] icon_names(icons@)[b],
            ) by {
                assert(keys(pairs)[a] == pairs[a].0);
                assert(keys(pairs)[b] == pairs[b].0);
            }
            assert forall|i: int| 0 <= i < icons.len() implies self@.spots.contains_key(
                #[trigger] icons@[i].name@,
            ) && records(icons@[i], self@.spots[icons@[i].name@]) by {
                lemma_pairs_map(pairs, i);
            }
            assert forall|k: Seq<char>| #[trigger] self@.spots.contains_key(k) implies exists|i: int|
                0 <= i < icons.len() && icons@[i].name@ == k by {
                let i = choose|i: int| 0 <= i < pairs.len() && #[trigger] pairs[i].0 == k;
                assert(icons@[i].name@ == k);
            }
        }
        StateFile { snap_to_grid: self.snap_to_grid, icons }
    }

    /// Drop positions for files that are no longer on the desktop.
    ///
    /// Without this the file grows forever. A file deleted and restored later loses its
    /// place, which is the right way round. Only a real change marks the state for saving.
    pub fn retain_only(&mut self, present: &[String])
        ensures
            final(self)@.spots == kept_spots(
                old(self)@.spots,
                crate::strings::views(present@),
            ),
            final(self)@.snap_to_grid == old(self)@.snap_to_grid,
            final(self)@.dirty == (old(self)@.dirty || exists|k: Seq<char>|
                #[trigger] old(self)@.spots.contains_key(k) && !crate::strings::views(present@).contains(k)),
    {
        proof {
            use_type_invariant(&*self);
        }
        let ghost before = pv(self.spots@);
        let ghost names = crate::strings::views(present@);
        let mut kept: Vec<(String, Spot)> = Vec::new();
        let ghost mut idx: Seq<int> = Seq::empty();
        for i in 0..self.spots.len()
            invariant
                before == pv(self.spots@),
                names == crate::strings::views(present@),
                strictly_sorted(keys(before)),
                idx.len() == kept.len(),
                forall|j: int| 0 <= j < idx.len() ==> 0 <= #[trigger] idx[j] < i,
                forall|a: int, b: int| 0 <= a < b < idx.len() ==> #[trigger] idx[a] < #[trigger] idx[b],
                forall|j: int| 0 <= j < idx.len() ==> #[trigger] pv(kept@)[j] == before[idx[j]],
                forall|j: int| 0 <= j < idx.len() ==> names.contains(#[trigger] pv(kept@)[j].0),
                forall|m: int|
                    0 <= m < i && names.contains(#[trigger] before[m].0) ==> covered(idx, m),
                kept.len() <= i,
                kept.len() == i ==> forall|m: int| 0 <= m < i ==> names.contains(#[trigger] before[m].0),
        {
            let mut found = false;
            let mut j: usize = 0;
            while j < present.len()
                invariant
                    j <= present.len(),
                    i < self.spots.len(),
                    before == pv(self.spots@),
                    names == crate::strings::views(present@),
                    found == exists|q: int| 0 <= q < j && names[q] == before[i as int].0,
                decreases present.len() - j,
            {
                if present[j] == self.spots[i].0 {
                    assert(names[j as int] == before[i as int].0);
                    found = true;
                }
                j = j + 1;
            }
            proof {
                if found {
                    let q = choose|q: int| 0 <= q < j && names[q] == before[i as int].0;
                    assert(names.contains(before[i as int].0));
                } else {
                    assert forall|q: int| 0 <= q < names.len() implies names[q] != before[i as int].0 by {}
                }
            }
            let ghost old_idx = idx;
            if found {
                let ghost prev = pv(kept@);
                kept.push((self.spots[i].0.clone(), self.spots[i].1));
                proof {
                    assert(pv(kept@) =~= prev.push(before[i as int]));
                    idx = idx.push(i as int);
                }
            }
            proof {
                assert forall|m: int|
                    0 <= m < i + 1 && names.contains(#[trigger] before[m].0) implies covered(idx, m) by {
                    if m < i {
                        assert(covered(old_idx, m));
                        let j = choose|j: int| 0 <= j < old_idx.len() && old_idx[j] == m;
                        assert(idx[j] == m);
                    } else {
                        assert(found);
                        assert(idx[idx.len() - 1] == m);
                    }
                }
            }
        }
        proof {
            let after = pv(kept@);
            assert forall|a: int, b: int| 0 <= a < b < after.len() implies less(
                #[trigger] keys(after)[a],
                #[trigger] keys(after)[b],
            ) by {
                assert(keys(before)[idx[a]] == before[idx[a]].0);
                assert(keys(before)[idx[b]] == before[idx[b]].0);
            }
            let m = kept_spots(pairs_map(before), names);
            assert forall|k: Seq<char>| #[trigger] pairs_map(after).contains_key(k) <==> m.contains_key(k) by {
                if pairs_map(after).contains_key(k) {
                    let j = choose|j: int| 0 <= j < after.len() && #[trigger] after[j].0 == k;
                    assert(before[idx[j]].0 == k);
                }
                if m.contains_key(k) {
                    let q = choose|q: int| 0 <= q < before.len() && #[trigger] before[q].0 == k;
                    assert(covered(idx, q));
                    let j = choose|j: int| 0 <= j < idx.len() && idx[j] == q;
                    assert(after[j].0 == k);
                }
            }
            assert forall|k: Seq<char>| #[trigger] pairs_map(after).contains_key(k) implies pairs_map(after)[k] == m[k] by {
                let j = choose|j: int| 0 <= j < after.len() && #[trigger] after[j].0 == k;
                lemma_pairs_map(after, j);
                lemma_pairs_map(before, idx[j]);
            }
            assert(pairs_map(after) =~= m);
            if kept.len() == self.spots.len() {
                assert forall|k: Seq<char>| #[trigger] pairs_map(before).contains_key(k) implies names.contains(k) by {
                    let q = choose|q: int| 0 <= q < before.len() && #[trigger] before[q].0 == k;
                }
            } else {
                // Some position was let go.
                assert(exists|q: int| 0 <= q < before.len() && !names.contains(#[trigger] before[q].0)) by {
                    if forall|q: int| 0 <= q < before.len() ==> names.contains(#[trigger] before[q].0) {
                        assert forall|m: int| 0 <= m < before.len() implies #[trigger] covered(idx, m) by {
                            assert(names.contains(before[m].0));
                        }
                        lemma_all_kept(idx, before.len() as int);
                    }
                }
                let missing = choose|q: int| 0 <= q < before.len() && !names.contains(#[trigger] before[q].0);
                lemma_pairs_map(before, missing);
            }
        }
        let changed = kept.len() != self.spots.len();
        proof {
            if changed {
                assert(exists|k: Seq<char>|
                    #[trigger] pairs_map(before).contains_key(k) && !names.contains(k));
            } else {
                assert(!exists|k: Seq<char>|
                    #[trigger] pairs_map(before).contains_key(k) && !names.contains(k));
            }
        }
        self.spots = kept;
        if changed {
            self.dirty = true;
        }
        assert(old(self)@.spots == pairs_map(before));
        assert(old(self)@.dirty == old(self).dirty);
        assert(self@.dirty == (old(self)@.dirty || changed));
    }
}

/// Whether some index is `m`.
spec fn covered(idx: Seq<int>, m: int) -> bool {
    exists|j: int| 0 <= j < idx.len() && idx[j] == m
}

/// Strictly increasing indices that cover every one of `0..n` are at least `n` of them.
proof fn lemma_all_kept(idx: Seq<int>, n: int)
    requires
        forall|j: int| 0 <= j < idx.len() ==> 0 <= #[trigger] idx[j] < n,
        forall|a: int, b: int| 0 <= a < b < idx.len() ==> #[trigger] idx[a] < #[trigger] idx[b],
        forall|m: int| 0 <= m < n ==> #[trigger] covered(idx, m),
    ensures
        idx.len() >= n,
{
    if n > 0 {
        lemma_cover(idx, n, n - 1);
        assert(covered(idx, n - 1));
        let j = choose|j: int| 0 <= j < idx.len() && idx[j] == n - 1;
    }
}

/// Where `m` is covered, it is at a position no earlier than `m`.
proof fn lemma_cover(idx: Seq<int>, n: int, m: int)
    requires
        forall|j: int| 0 <= j < idx.len() ==> 0 <= #[trigger] idx[j] < n,
        forall|a: int, b: int| 0 <= a < b < idx.len() ==> #[trigger] idx[a] < #[trigger] idx[b],
        forall|m: int| 0 <= m < n ==> #[trigger] covered(idx, m),
        0 <= m < n,
    ensures
        forall|j: int| 0 <= j < idx.len() && #[trigger] idx[j] == m ==> j >= m,
    decreases m,
{
    if m > 0 {
        lemma_cover(idx, n, m - 1);
        assert forall|j: int| 0 <= j < idx.len() && #[trigger] idx[j] == m implies j >= m by {
            assert(covered(idx, m - 1));
            let k = choose|k: int| 0 <= k < idx.len() && idx[k] == m - 1;
            assert(k >= m - 1);
            if j < k {
                assert(idx[j] < idx[k]);
            }
        }
    }
}


impl State {
    /// Whether every remembered spot is one `grid` can honor; see [`Grid::remembered_ok`].
    pub fn fits(&self, grid: &Grid) -> (r: bool)
        requires
            grid.wf(),
        ensures
            r == forall|k: Seq<char>|
                #[trigger] self@.spots.contains_key(k) ==> grid.remembered_ok(Some(self@.spots[k])),
    {
        proof {
            use_type_invariant(self);
        }
        let ghost pairs = pv(self.spots@);
        let mut i: usize = 0;
        while i < self.spots.len()
            invariant
                i <= self.spots.len(),
                pairs == pv(self.spots@),
                strictly_sorted(keys(pairs)),
                grid.wf(),
                forall|j: int| 0 <= j < i ==> grid.remembered_ok(Some(#[trigger] pairs[j].1)),
            decreases self.spots.len() - i,
        {
            if !grid.honors(Some(self.spots[i].1)) {
                proof {
                    lemma_pairs_map(pairs, i as int);
                    let k = pairs[i as int].0;
                    assert(self@.spots.contains_key(k) && !grid.remembered_ok(Some(self@.spots[k])));
                }
                return false;
            }
            i = i + 1;
        }
        proof {
            assert forall|k: Seq<char>| #[trigger] self@.spots.contains_key(k) implies grid.remembered_ok(
                Some(self@.spots[k]),
            ) by {
                let j = choose|j: int| 0 <= j < pairs.len() && #[trigger] pairs[j].0 == k;
                lemma_pairs_map(pairs, j);
            }
        }
        true
    }

    /// Lay `entries` out on `grid`, and remember where every one of them landed.
    ///
    /// The pinning is deliberately *here*: an icon whose position is only implied by its place
    /// in the list is not placed at all -- it is handed the next free cell every time, so
    /// moving or deleting the icon above it makes everything below slide up. Pinning what the
    /// first layout decided is what makes a gap stay a gap.
    pub fn arrange(&mut self, grid: &Grid, entries: &[Entry]) -> (placed: Vec<Placed>)
        requires
            grid.wf(),
            grid.room_for(entries.len() as int),
            forall|k: Seq<char>|
                #[trigger] old(self)@.spots.contains_key(k) ==> grid.remembered_ok(
                    Some(old(self)@.spots[k]),
                ),
        ensures
            arranged_from(*grid, entries@, remembered_for(old(self)@.spots, entries@), placed@),
            final(self)@ == pinned(old(self)@, placed@),
    {
        let ghost start = self@;
        let mut answers: Vec<Option<Spot>> = Vec::new();
        for i in 0..entries.len()
            invariant
                self@ == start,
                answers.len() == i,
                forall|j: int| 0 <= j < i ==> #[trigger] answers@[j] == lookup(start.spots, entries@[j].name@),
        {
            answers.push(self.spot(entries[i].name.as_str()));
        }
        assert(answers@ =~= remembered_for(start.spots, entries@));
        assert forall|i: int| 0 <= i < answers.len() implies grid.remembered_ok(#[trigger] answers@[i]) by {}
        let placed = arrange_remembered(grid, entries, answers.as_slice());
        assert(placed@.take(0) =~= Seq::<Placed>::empty());
        for i in 0..placed.len()
            invariant
                self@ == pinned(start, placed@.take(i as int)),
        {
            assert(placed@.take(i + 1).drop_last() =~= placed@.take(i as int));
            assert(placed@.take(i + 1).last() == placed@[i as int]);
            self.set_spot(placed[i].entry.name.as_str(), placed[i].spot);
        }
        assert(placed@.take(placed@.len() as int) =~= placed@);
        placed
    }
}

impl Default for State {
    /// Nothing remembered, and nothing to save.
    fn default() -> (s: Self)
        ensures
            s@.spots == Map::<Seq<char>, Spot>::empty(),
            s@.snap_to_grid is None,
            !s@.dirty,
    {
        State::new()
    }
}

/// Pinning a layout remembers where each icon landed: afterwards every laid-out name looks up
/// to its own spot, and a name the layout did not hold keeps whatever it had.
pub proof fn law_pinned_remembers(s: StateView, placed: Seq<Placed>)
    requires
        forall|i: int, j: int|
            0 <= i < j < placed.len() ==> (#[trigger] placed[i]).entry.name@ != (#[trigger] placed[j]).entry.name@,
    ensures
        forall|i: int|
            0 <= i < placed.len() ==> lookup(pinned(s, placed).spots, (#[trigger] placed[i]).entry.name@)
                == Some(placed[i].spot),
        forall|name: Seq<char>|
            (forall|i: int| 0 <= i < placed.len() ==> (#[trigger] placed[i]).entry.name@ != name) ==> lookup(
                pinned(s, placed).spots,
                name,
            ) == lookup(s.spots, name),
    decreases placed.len(),
{
    if placed.len() > 0 {
        let d = placed.drop_last();
        assert forall|i: int, j: int| 0 <= i < j < d.len() implies (#[trigger] d[i]).entry.name@
            != (#[trigger] d[j]).entry.name@ by {
            assert(d[i] == placed[i] && d[j] == placed[j]);
        }
        law_pinned_remembers(s, d);
        let last = placed.last();
        let n = placed.len() - 1;
        assert forall|i: int| 0 <= i < placed.len() implies lookup(
            pinned(s, placed).spots,
            (#[trigger] placed[i]).entry.name@,
        ) == Some(placed[i].spot) by {
            if i < n {
                assert(d[i] == placed[i]);
                assert(placed[i].entry.name@ != placed[n].entry.name@);
            }
        }
        assert forall|name: Seq<char>|
            (forall|i: int| 0 <= i < placed.len() ==> (#[trigger] placed[i]).entry.name@ != name) implies lookup(
            pinned(s, placed).spots,
            name,
        ) == lookup(s.spots, name) by {
            assert forall|i: int| 0 <= i < d.len() implies (#[trigger] d[i]).entry.name@ != name by {
                assert(d[i] == placed[i]);
            }
            assert(placed[n].entry.name@ != name);
        }
    }
}

/// Pinning a layout marks the state for saving exactly when it already was marked or some
/// icon landed somewhere other than where it was remembered; so laying out an unchanged
/// desktop leaves it clean. The snap setting is left alone.
pub proof fn law_pinned_dirty(s: StateView, placed: Seq<Placed>)
    requires
        forall|i: int, j: int|
            0 <= i < j < placed.len() ==> (#[trigger] placed[i]).entry.name@ != (#[trigger] placed[j]).entry.name@,
    ensures
        pinned(s, placed).dirty == (s.dirty || exists|i: int|
            0 <= i < placed.len() && lookup(s.spots, (#[trigger] placed[i]).entry.name@) != Some(
                placed[i].spot,
            )),
        pinned(s, placed).snap_to_grid == s.snap_to_grid,
    decreases placed.len(),
{
    if placed.len() > 0 {
        let d = placed.drop_last();
        let n = placed.len() - 1;
        assert forall|i: int, j: int| 0 <= i < j < d.len() implies (#[trigger] d[i]).entry.name@
            != (#[trigger] d[j]).entry.name@ by {
            assert(d[i] == placed[i] && d[j] == placed[j]);
        }
        law_pinned_dirty(s, d);
        law_pinned_remembers(s, d);
        let name = placed[n].entry.name@;
        assert forall|i: int| 0 <= i < d.len() implies (#[trigger] d[i]).entry.name@ != name by {
            assert(d[i] == placed[i]);
        }
        assert(lookup(pinned(s, d).spots, name) == lookup(s.spots, name));
        let changed = exists|i: int|
            0 <= i < placed.len() && lookup(s.spots, (#[trigger] placed[i]).entry.name@) != Some(
                placed[i].spot,
            );
        let changed_before = exists|i: int|
            0 <= i < d.len() && lookup(s.spots, (#[trigger] d[i]).entry.name@) != Some(d[i].spot);
        if changed_before {
            let i = choose|i: int|
                0 <= i < d.len() && lookup(s.spots, (#[trigger] d[i]).entry.name@) != Some(d[i].spot);
            assert(d[i] == placed[i]);
        }
        if changed {
            let i = choose|i: int|
                0 <= i < placed.len() && lookup(s.spots, (#[trigger] placed[i]).entry.name@) != Some(
                    placed[i].spot,
                );
            if i < n {
                assert(d[i] == placed[i]);
            }
        }
    }
}

/// What [`State::arrange`] leaves behind, for entries with distinct names: the layout is the
/// one made from what was remembered for each; every icon is now remembered where it landed,
/// not only the ones that were dragged; every other name keeps what it had; and the state is
/// marked for saving exactly when it already was or some icon landed somewhere other than
/// where it was remembered -- so laying out an unchanged desktop leaves it clean.
pub proof fn law_state_arrange(s: StateView, grid: Grid, entries: Seq<Entry>, placed: Seq<Placed>)
    requires
        arranged_from(grid, entries, remembered_for(s.spots, entries), placed),
        forall|i: int, j: int|
            0 <= i < j < entries.len() ==> (#[trigger] entries[i]).name@ != (#[trigger] entries[j]).name@,
    ensures
        forall|i: int|
            0 <= i < placed.len() ==> placed[i].spot == spec_arrange(grid, remembered_for(s.spots, entries))[i]
                && lookup(pinned(s, placed).spots, (#[trigger] entries[i]).name@) == Some(placed[i].spot),
        forall|name: Seq<char>|
            (forall|i: int| 0 <= i < entries.len() ==> (#[trigger] entries[i]).name@ != name) ==> lookup(
                pinned(s, placed).spots,
                name,
            ) == lookup(s.spots, name),
        pinned(s, placed).dirty == (s.dirty || exists|i: int|
            0 <= i < entries.len() && lookup(s.spots, (#[trigger] entries[i]).name@) != Some(
                placed[i].spot,
            )),
        pinned(s, placed).snap_to_grid == s.snap_to_grid,
{
    assert forall|i: int, j: int| 0 <= i < j < placed.len() implies (#[trigger] placed[i]).entry.name@
        != (#[trigger] placed[j]).entry.name@ by {
        assert(placed[i].entry@ == entries[i]@ && placed[j].entry@ == entries[j]@);
        assert(entries[i].name@ != entries[j].name@);
    }
    law_pinned_remembers(s, placed);
    law_pinned_dirty(s, placed);
    assert forall|i: int| 0 <= i < placed.len() implies placed[i].spot == spec_arrange(
        grid,
        remembered_for(s.spots, entries),
    )[i] && lookup(pinned(s, placed).spots, (#[trigger] entries[i]).name@) == Some(placed[i].spot) by {
        assert(placed[i].entry@ == entries[i]@);
    }
    assert forall|name: Seq<char>|
        (forall|i: int| 0 <= i < entries.len() ==> (#[trigger] entries[i]).name@ != name) implies lookup(
        pinned(s, placed).spots,
        name,
    ) == lookup(s.spots, name) by {
        assert forall|i: int| 0 <= i < placed.len() implies (#[trigger] placed[i]).entry.name@ != name by {
            assert(placed[i].entry@ == entries[i]@);
            assert(entries[i].name@ != name);
        }
    }
    let changed = exists|i: int|
        0 <= i < placed.len() && lookup(s.spots, (#[trigger] placed[i]).entry.name@) != Some(placed[i].spot);
    if changed {
        let i = choose|i: int|
            0 <= i < placed.len() && lookup(s.spots, (#[trigger] placed[i]).entry.name@) != Some(placed[i].spot);
        assert(placed[i].entry@ == entries[i]@);
        assert(lookup(s.spots, entries[i].name@) != Some(placed[i].spot));
    }
    if exists|i: int|
        0 <= i < entries.len() && lookup(s.spots, (#[trigger] entries[i]).name@) != Some(placed[i].spot) {
        let i = choose|i: int|
            0 <= i < entries.len() && lookup(s.spots, (#[trigger] entries[i]).name@) != Some(placed[i].spot);
        assert(placed[i].entry@ == entries[i]@);
        assert(lookup(s.spots, placed[i].entry.name@) != Some(placed[i].spot));
    }
}

/// Pinning what is already remembered changes nothing, not even the dirty flag.
proof fn lemma_pinned_unchanged(t: StateView, placed: Seq<Placed>)
    requires
        forall|i: int|
            0 <= i < placed.len() ==> lookup(t.spots, (#[trigger] placed[i]).entry.name@) == Some(
                placed[i].spot,
            ),
    ensures
        pinned(t, placed) == t,
    decreases placed.len(),
{
    if placed.len() > 0 {
        let d = placed.drop_last();
        assert forall|i: int| 0 <= i < d.len() implies lookup(t.spots, (#[trigger] d[i]).entry.name@)
            == Some(d[i].spot) by {
            assert(d[i] == placed[i]);
        }
        lemma_pinned_unchanged(t, d);
        assert(lookup(t.spots, placed[placed.len() - 1].entry.name@) == Some(placed[placed.len() - 1].spot));
    }
}

/// Laying out the same desktop twice changes nothing: once a layout has been pinned, laying
/// the same entries out again gives the same layout, and pinning it again leaves the state as
/// it was -- so a redraw neither moves an icon nor marks the file for a rewrite.
pub proof fn law_arrange_twice_changes_nothing(
    s: StateView,
    grid: Grid,
    entries: Seq<Entry>,
    placed: Seq<Placed>,
    t: StateView,
)
    requires
        grid.wf(),
        entries.len() <= grid.spec_capacity(),
        entries.len() <= 0x3fff_ffff,
        forall|i: int, j: int|
            0 <= i < j < entries.len() ==> (#[trigger] entries[i]).name@ != (#[trigger] entries[j]).name@,
        arranged_from(grid, entries, remembered_for(s.spots, entries), placed),
        t.spots == pinned(s, placed).spots,
    ensures
        arranged_from(grid, entries, remembered_for(t.spots, entries), placed),
        pinned(t, placed) == t,
{
    let answers = remembered_for(s.spots, entries);
    assert forall|i: int, j: int| 0 <= i < j < placed.len() implies (#[trigger] placed[i]).entry.name@
        != (#[trigger] placed[j]).entry.name@ by {
        assert(placed[i].entry@ == entries[i]@ && placed[j].entry@ == entries[j]@);
    }
    law_pinned_remembers(s, placed);
    let again = remembered_for(t.spots, entries);
    let out = spec_arrange(grid, answers);
    lemma_arrange_len(grid, answers);
    assert(again =~= out.map_values(|sp: Spot| Some(sp))) by {
        assert forall|i: int| 0 <= i < entries.len() implies again[i] == Some(out[i]) by {
            assert(placed[i].entry@ == entries[i]@);
            assert(lookup(pinned(s, placed).spots, placed[i].entry.name@) == Some(placed[i].spot));
        }
    }
    law_arrange_is_stable(grid, answers);
    assert forall|i: int| 0 <= i < placed.len() implies lookup(t.spots, (#[trigger] placed[i]).entry.name@)
        == Some(placed[i].spot) by {
        assert(lookup(pinned(s, placed).spots, placed[i].entry.name@) == Some(placed[i].spot));
    }
    lemma_pinned_unchanged(t, placed);
}

/// The spot a record describes.
pub open spec fn record_spot(icon: IconState) -> Option<Spot> {
    icon_spot(icon.slot, icon.x, icon.y)
}

/// Records with distinct names describe exactly the usable ones among them.
proof fn lemma_file_spots(icons: Seq<IconState>)
    requires
        forall|i: int, j: int| 0 <= i < j < icons.len() ==> (#[trigger] icons[i]).name@ != (#[trigger] icons[j]).name@,
    ensures
        forall|k: Seq<char>|
            #[trigger] file_spots(icons).contains_key(k) <==> exists|i: int|
                0 <= i < icons.len() && icons[i].name@ == k && record_spot(icons[i]) is Some,
        forall|i: int|
            0 <= i < icons.len() && record_spot(#[trigger] icons[i]) is Some ==> file_spots(icons)[icons[i].name@]
                == record_spot(icons[i]).unwrap(),
    decreases icons.len(),
{
    if icons.len() > 0 {
        let d = icons.drop_last();
        let n = icons.len() - 1;
        assert forall|i: int, j: int| 0 <= i < j < d.len() implies (#[trigger] d[i]).name@ != (#[trigger] d[j]).name@ by {
            assert(d[i] == icons[i] && d[j] == icons[j]);
        }
        lemma_file_spots(d);
        assert forall|k: Seq<char>|
            #[trigger] file_spots(icons).contains_key(k) <==> exists|i: int|
                0 <= i < icons.len() && icons[i].name@ == k && record_spot(icons[i]) is Some by {
            if file_spots(d).contains_key(k) {
                let i = choose|i: int| 0 <= i < d.len() && d[i].name@ == k && record_spot(d[i]) is Some;
                assert(icons[i] == d[i]);
            }
            if exists|i: int| 0 <= i < icons.len() && icons[i].name@ == k && record_spot(icons[i]) is Some {
                let i = choose|i: int| 0 <= i < icons.len() && icons[i].name@ == k && record_spot(icons[i]) is Some;
                if i < n {
                    assert(d[i] == icons[i]);
                }
            }
        }
        assert forall|i: int|
            0 <= i < icons.len() && record_spot(#[trigger] icons[i]) is Some implies file_spots(icons)[icons[i].name@]
                == record_spot(icons[i]).unwrap() by {
            if i < n {
                assert(d[i] == icons[i]);
                assert(icons[i].name@ != icons[n].name@);
            }
        }
    }
}

/// What is written is what is read back: the file a state writes describes exactly the
/// positions it holds, as long as none of them is a negative slot -- which no file can say.
pub proof fn law_file_round_trip(spots: Map<Seq<char>, Spot>, icons: Seq<IconState>)
    requires
        strictly_sorted(icon_names(icons)),
        forall|i: int|
            0 <= i < icons.len() ==> spots.contains_key(#[trigger] icons[i].name@) && records(
                icons[i],
                spots[icons[i].name@],
            ),
        forall|k: Seq<char>|
            #[trigger] spots.contains_key(k) ==> exists|i: int| 0 <= i < icons.len() && icons[i].name@ == k,
        forall|k: Seq<char>|
            #[trigger] spots.contains_key(k) ==> (spots[k] matches Spot::Slot(s) ==> s >= 0),
    ensures
        file_spots(icons) == spots,
{
    assert forall|i: int, j: int| 0 <= i < j < icons.len() implies (#[trigger] icons[i]).name@ != (#[trigger] icons[j]).name@ by {
        assert(icon_names(icons)[i] == icons[i].name@ && icon_names(icons)[j] == icons[j].name@);
        assert(less(icon_names(icons)[i], icon_names(icons)[j]));
        lemma_less_irreflexive(icons[i].name@);
    }
    lemma_file_spots(icons);
    assert forall|i: int| 0 <= i < icons.len() implies record_spot(#[trigger] icons[i]) == Some(spots[icons[i].name@]) by {
        assert(spots.contains_key(icons[i].name@));
    }
    assert(file_spots(icons) =~= spots) by {
        assert forall|k: Seq<char>| #[trigger] spots.contains_key(k) implies file_spots(icons).contains_key(k) && file_spots(icons)[k] == spots[k] by {
            let i = choose|i: int| 0 <= i < icons.len() && icons[i].name@ == k;
            assert(record_spot(icons[i]) == Some(spots[icons[i].name@]));
        }
        assert forall|k: Seq<char>| #[trigger] file_spots(icons).contains_key(k) implies spots.contains_key(k) by {
            let i = choose|i: int| 0 <= i < icons.len() && icons[i].name@ == k && record_spot(icons[i]) is Some;
            assert(spots.contains_key(icons[i].name@));
        }
    }
}

} // verus!
