//! The desired tree: every path a load asks the projection to hold, with the
//! entry it holds there and where that entry came from.

use vstd::prelude::*;

use crate::entry::{Entry, EntryView};
use crate::refusal::{Origin, OriginView};
use crate::text::text_eq;

verus! {

/// The desired tree: each relative path once, with its entry and the origin a
/// refusal names for it.
#[derive(Debug)]
pub struct Desired {
    entries: Vec<(String, Entry, Origin)>,
}

impl Desired {
    /// Each path appears once.
    #[verifier::type_invariant]
    spec fn paths_distinct(&self) -> bool {
        forall|i: int, j: int|
            0 <= i < self.entries@.len() && 0 <= j < self.entries@.len() && i != j
                ==> #[trigger] self.entries@[i].0@ != #[trigger] self.entries@[j].0@
    }

    /// The paths held, in the order they were first inserted.
    pub closed spec fn paths(&self) -> Seq<Seq<char>> {
        Seq::new(self.entries@.len(), |i: int| self.entries@[i].0@)
    }

    /// The entry and origin held at path text `path`, if any.
    pub closed spec fn lookup(&self, path: Seq<char>) -> Option<(EntryView, OriginView)> {
        if exists|i: int| 0 <= i < self.entries@.len() && #[trigger] self.entries@[i].0@ == path {
            let i = choose|i: int| 0 <= i < self.entries@.len() && #[trigger] self.entries@[i].0@ == path;
            Some((self.entries@[i].1@, self.entries@[i].2@))
        } else {
            None
        }
    }

    /// An empty desired tree.
    pub fn new() -> (desired: Self)
        ensures
            desired.paths().len() == 0,
            forall|p: Seq<char>| #[trigger] desired.lookup(p) is None,
    {
        Desired { entries: Vec::new() }
    }

    /// The index holding `path`.
    fn index_of(&self, path: &str) -> (found: Option<usize>)
        ensures
            match found {
                Some(i) => i < self.entries@.len() && self.entries@[i as int].0@ == path@
                    && self.lookup(path@) == Some((self.entries@[i as int].1@, self.entries@[i as int].2@)),
                None => self.lookup(path@) is None,
            },
    {
        proof {
            use_type_invariant(self);
        }
        let mut i: usize = 0;
        while i < self.entries.len()
            invariant
                i <= self.entries@.len(),
                self.paths_distinct(),
                forall|k: int| 0 <= k < i ==> self.entries@[k].0@ != path@,
            decreases self.entries.len() - i,
        {
            if text_eq(self.entries[i].0.as_str(), path) {
                proof {
                    self.lemma_lookup_at(i as int);
                }
                return Some(i);
            }
            i = i + 1;
        }
        None
    }

    /// With each path listed once, the lookup at a listed path is what its
    /// listing holds.
    proof fn lemma_lookup_at(&self, i: int)
        requires
            self.paths_distinct(),
            0 <= i < self.entries@.len(),
        ensures
            self.lookup(self.entries@[i].0@) == Some((self.entries@[i].1@, self.entries@[i].2@)),
    {
        let p = self.entries@[i].0@;
        assert(exists|k: int| 0 <= k < self.entries@.len() && #[trigger] self.entries@[k].0@ == p);
        let j = choose|k: int| 0 <= k < self.entries@.len() && #[trigger] self.entries@[k].0@ == p;
        if j != i {
            assert(self.entries@[i].0@ != self.entries@[j].0@);
        }
    }

    /// Holds `entry` at `path`, labelled with `origin`, replacing what was
    /// there: `true` where nothing was.
    pub fn insert(&mut self, path: String, entry: Entry, origin: Origin) -> (fresh: bool)
        ensures
            fresh == old(self).lookup(path@) is None,
            final(self).lookup(path@) == Some((entry@, origin@)),
            forall|p: Seq<char>| p != path@ ==> #[trigger] final(self).lookup(p) == old(self).lookup(p),
            fresh ==> final(self).paths() == old(self).paths().push(path@),
            !fresh ==> final(self).paths() == old(self).paths(),
    {
        proof {
            use_type_invariant(&*self);
        }
        let ghost path_text = path@;
        let ghost entry_view = entry@;
        let ghost origin_view = origin@;
        let ghost before = self.entries@;
        let found = self.index_of(path.as_str());
        let mut entries = Vec::new();
        std::mem::swap(&mut entries, &mut self.entries);
        let fresh = match found {
            Some(i) => {
                entries.set(i, (path, entry, origin));
                false
            },
            None => {
                entries.push((path, entry, origin));
                true
            },
        };
        proof {
            let n = before.len() as int;
            assert forall|a: int, b: int|
                0 <= a < entries@.len() && 0 <= b < entries@.len() && a != b
                    implies #[trigger] entries@[a].0@ != #[trigger] entries@[b].0@ by {
                if a < n && (fresh || a != found.unwrap()) {
                    assert(before[a].0@ == entries@[a].0@);
                }
                if b < n && (fresh || b != found.unwrap()) {
                    assert(before[b].0@ == entries@[b].0@);
                }
                if fresh {
                    if a < n {
                        assert(before[a].0@ != path_text);
                    }
                    if b < n {
                        assert(before[b].0@ != path_text);
                    }
                }
            }
        }
        self.entries = entries;
        proof {
            use_type_invariant(&*self);
        }
        let ghost idx = if fresh { before.len() as int } else { found.unwrap() as int };
        proof {
            self.lemma_lookup_at(idx);
            assert(self.entries@[idx].0@ == path_text);
        }
        assert forall|p: Seq<char>| p != path_text implies #[trigger] self.lookup(p) == old(
            self,
        ).lookup(p) by {
            if exists|k: int| 0 <= k < before.len() && #[trigger] before[k].0@ == p {
                let k = choose|k: int| 0 <= k < before.len() && #[trigger] before[k].0@ == p;
                assert(self.entries@[k] == before[k]);
                old(self).lemma_lookup_at(k);
                self.lemma_lookup_at(k);
            } else {
                if exists|k: int| 0 <= k < self.entries@.len() && #[trigger] self.entries@[k].0@ == p {
                    let k = choose|k: int| 0 <= k < self.entries@.len() && #[trigger] self.entries@[k].0@ == p;
                    if k < before.len() {
                        assert(before[k].0@ == p);
                    }
                }
            }
        }
        if fresh {
            assert(self.paths() =~= old(self).paths().push(path_text));
        } else {
            assert(self.paths() =~= old(self).paths());
        }
        fresh
    }

    /// Every `(path, entry)` of `entries`, inserted in turn with `origin`: a
    /// later entry at a path replaces an earlier one.
    pub fn from_source(entries: Vec<(String, Entry)>, origin: Origin) -> (desired: Self)
        ensures
            forall|p: Seq<char>|
                #[trigger] desired.lookup(p) == match last_at(entries@, p) {
                    Some(e) => Some((e, origin@)),
                    None => None,
                },
    {
        let mut desired = Desired::new();
        let ghost all = entries@;
        let mut i: usize = 0;
        let n = entries.len();
        while i < n
            invariant
                n == all.len(),
                entries@ == all,
                i <= n,
                forall|p: Seq<char>|
                    #[trigger] desired.lookup(p) == match last_at(all.take(i as int), p) {
                        Some(e) => Some((e, origin@)),
                        None => None,
                    },
            decreases n - i,
        {
            let path = entries[i].0.clone();
            let entry = entries[i].1.duplicate();
            proof {
                assert(all.take(i + 1).drop_last() =~= all.take(i as int));
                assert(all.take(i + 1).last() == all[i as int]);
            }
            desired.insert(path, entry, origin.duplicate());
            i = i + 1;
        }
        assert(all.take(n as int) =~= all);
        desired
    }

    /// Every `(path, entry)` of `entries`, as the caller built it.
    pub fn from_caller(entries: Vec<(String, Entry)>) -> (desired: Self)
        ensures
            forall|p: Seq<char>|
                #[trigger] desired.lookup(p) == match last_at(entries@, p) {
                    Some(e) => Some((e, OriginView::Caller)),
                    None => None,
                },
    {
        Desired::from_source(entries, Origin::Caller)
    }

    /// The entry held at `path`.
    pub fn get(&self, path: &str) -> (found: Option<&Entry>)
        ensures
            match found {
                Some(entry) => self.lookup(path@) matches Some(held) && held.0 == entry@,
                None => self.lookup(path@) is None,
            },
    {
        match self.index_of(path) {
            Some(i) => Some(&self.entries[i].1),
            None => None,
        }
    }

    /// Where the entry at `path` came from; [`Origin::Caller`] where nothing
    /// is held there.
    pub fn origin(&self, path: &str) -> (origin: Origin)
        ensures
            origin@ == match self.lookup(path@) {
                Some(held) => held.1,
                None => OriginView::Caller,
            },
    {
        match self.index_of(path) {
            Some(i) => self.entries[i].2.duplicate(),
            None => Origin::Caller,
        }
    }

    /// Whether anything is held at `path`.
    pub fn contains_key(&self, path: &str) -> (found: bool)
        ensures
            found == self.lookup(path@) is Some,
    {
        self.index_of(path).is_some()
    }

    /// How many paths are held.
    pub fn len(&self) -> (n: usize)
        ensures
            n == self.paths().len(),
    {
        self.entries.len()
    }

    /// Whether no path is held.
    pub fn is_empty(&self) -> (empty: bool)
        ensures
            empty == (self.paths().len() == 0),
    {
        self.entries.len() == 0
    }

    /// Each held path with its entry, in the order of [`paths`](Self::paths).
    pub fn iter(&self) -> (pairs: Vec<(&String, &Entry)>)
        ensures
            pairs@.len() == self.paths().len(),
            forall|i: int|
                0 <= i < pairs@.len() ==> {
                    &&& (#[trigger] pairs@[i]).0@ == self.paths()[i]
                    &&& self.lookup(self.paths()[i]) matches Some(held) && held.0 == pairs@[i].1@
                },
    {
        proof {
            use_type_invariant(self);
        }
        let mut pairs: Vec<(&String, &Entry)> = Vec::new();
        let mut i: usize = 0;
        while i < self.entries.len()
            invariant
                i <= self.entries@.len(),
                pairs@.len() == i,
                forall|k: int|
                    0 <= k < i ==> {
                        &&& (#[trigger] pairs@[k]).0@ == self.entries@[k].0@
                        &&& pairs@[k].1@ == self.entries@[k].1@
                    },
            decreases self.entries.len() - i,
        {
            let (path, entry, _) = &self.entries[i];
            pairs.push((path, entry));
            i = i + 1;
        }
        proof {
            assert forall|k: int| 0 <= k < pairs@.len() implies #[trigger] self.lookup(self.paths()[k]) matches Some(
                held,
            ) && held.0 == pairs@[k].1@ by {
                self.lemma_lookup_at(k);
            }
        }
        pairs
    }

    /// Each held path with its origin, in the order of [`paths`](Self::paths).
    pub fn sources(&self) -> (pairs: Vec<(&String, &Origin)>)
        ensures
            pairs@.len() == self.paths().len(),
            forall|i: int|
                0 <= i < pairs@.len() ==> {
                    &&& (#[trigger] pairs@[i]).0@ == self.paths()[i]
                    &&& self.lookup(self.paths()[i]) matches Some(held) && held.1 == pairs@[i].1@
                },
    {
        proof {
            use_type_invariant(self);
        }
        let mut pairs: Vec<(&String, &Origin)> = Vec::new();
        let mut i: usize = 0;
        while i < self.entries.len()
            invariant
                i <= self.entries@.len(),
                pairs@.len() == i,
                forall|k: int|
                    0 <= k < i ==> {
                        &&& (#[trigger] pairs@[k]).0@ == self.entries@[k].0@
                        &&& pairs@[k].1@ == self.entries@[k].2@
                    },
            decreases self.entries.len() - i,
        {
            let (path, _, origin) = &self.entries[i];
            pairs.push((path, origin));
            i = i + 1;
        }
        proof {
            assert forall|k: int| 0 <= k < pairs@.len() implies #[trigger] self.lookup(self.paths()[k]) matches Some(
                held,
            ) && held.1 == pairs@[k].1@ by {
                self.lemma_lookup_at(k);
            }
        }
        pairs
    }
}

/// The entry the last pair at path text `p` carries, if any pair does.
pub open spec fn last_at(pairs: Seq<(String, Entry)>, p: Seq<char>) -> Option<EntryView>
    decreases pairs.len(),
{
    if pairs.len() == 0 {
        None
    } else if pairs.last().0@ == p {
        Some(pairs.last().1@)
    } else {
        last_at(pairs.drop_last(), p)
    }
}

impl Default for Desired {
    fn default() -> (desired: Self)
        ensures
            desired.paths().len() == 0,
            forall|p: Seq<char>| #[trigger] desired.lookup(p) is None,
    {
        Desired::new()
    }
}

} // verus!
