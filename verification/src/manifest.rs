use vstd::prelude::*;

use crate::entry::{EntryKind, KindView};
use crate::error::Error;
use crate::text::text_eq;

verus! {

/// The manifest format version this crate writes and accepts.
pub const MANIFEST_VERSION: u32 = 1;

/// The single-writer lock file's name, beside the manifest in the state
/// directory.
pub const LOCK_FILE_NAME: &'static str = "proiectio.lock";

/// The one rule an owner keeps, wherever the name comes from.
pub const OWNER_RULE: &'static str =
    "an owner names a producer in the manifest, and neither an empty nor a blank string names one";

/// The characters Unicode gives the `White_Space` property, which is what
/// `char::is_whitespace` and `str::trim` go by.
pub open spec fn spec_is_whitespace(c: char) -> bool {
    ||| '\u{9}' <= c <= '\u{d}'
    ||| c == ' '
    ||| c == '\u{85}'
    ||| c == '\u{a0}'
    ||| c == '\u{1680}'
    ||| '\u{2000}' <= c <= '\u{200a}'
    ||| c == '\u{2028}'
    ||| c == '\u{2029}'
    ||| c == '\u{202f}'
    ||| c == '\u{205f}'
    ||| c == '\u{3000}'
}

/// Refuses a manifest declaring any version but [`MANIFEST_VERSION`].
pub fn check_manifest_version(path: &str, found: u32) -> (checked: Result<(), Error>)
    ensures
        checked is Ok <==> found == MANIFEST_VERSION,
        checked is Err ==> (checked matches Err(Error::ManifestVersion { path: p, found: f, supported })
            && p@ == path@ && f == found && supported == MANIFEST_VERSION),
{
    if found != MANIFEST_VERSION {
        return Err(Error::ManifestVersion { path: path.to_owned(), found, supported: MANIFEST_VERSION });
    }
    Ok(())
}

/// Whether `c` is Unicode white space.
pub fn is_whitespace(c: char) -> (ws: bool)
    ensures
        ws == spec_is_whitespace(c),
{
    ('\u{9}' <= c && c <= '\u{d}') || c == ' ' || c == '\u{85}' || c == '\u{a0}' || c
        == '\u{1680}' || ('\u{2000}' <= c && c <= '\u{200a}') || c == '\u{2028}' || c
        == '\u{2029}' || c == '\u{202f}' || c == '\u{205f}' || c == '\u{3000}'
}

/// A name names an owner when some character of it is not white space:
/// trimmed, it is not empty.
pub open spec fn spec_names_an_owner(owner: Seq<char>) -> bool {
    exists|i: int| 0 <= i < owner.len() && !spec_is_whitespace(#[trigger] owner[i])
}

/// Whether `owner` names one, per [`OWNER_RULE`]. The name a manifest records
/// is the name a removal has to spell back and a listing prints, and neither
/// an empty nor a blank string is one a reader of that file can see.
pub fn names_an_owner(owner: &str) -> (named: bool)
    ensures
        named == spec_names_an_owner(owner@),
{
    let mut named = false;
    let ghost mut seen: int = 0;
    for c in it: owner.chars()
        invariant
            it.seq() == owner@,
            named == exists|i: int| 0 <= i < it.index() && !spec_is_whitespace(#[trigger] owner@[i]),
    {
        if !is_whitespace(c) {
            named = true;
        }
    }
    named
}

/// [`OWNER_RULE`] as the planning entry points enforce it, which is where a
/// name first reaches the manifest.
pub fn require_owner(owner: &str) -> (checked: Result<(), Error>)
    ensures
        checked is Ok <==> spec_names_an_owner(owner@),
        checked matches Err(Error::OwnerNotNamed { owner: named }) ==> named@ == owner@,
        checked is Err ==> checked matches Err(Error::OwnerNotNamed { .. }),
{
    if names_an_owner(owner) {
        Ok(())
    } else {
        Err(Error::OwnerNotNamed { owner: owner.to_owned() })
    }
}

} // verus!

verus! {

/// What the manifest records for one projected path.
#[derive(Debug, Clone, PartialEq, Eq)]
pub struct ManifestEntry {
    /// What kind of node was written.
    pub kind: EntryKind,
    /// Lowercase hex SHA-256 of the bytes last written: the file contents,
    /// the symlink target string, or a block's region body alone.
    pub hash: String,
    /// Whether the written file carries the executable bit; always `false`
    /// for symlinks and blocks.
    pub executable: bool,
    /// The opaque owner names holding this path, each once.
    pub owners: Vec<String>,
}

/// The mathematical value of a [`ManifestEntry`].
pub struct RecordView {
    pub kind: KindView,
    pub hash: Seq<char>,
    pub executable: bool,
    pub owners: Seq<Seq<char>>,
}

impl View for ManifestEntry {
    type V = RecordView;

    open spec fn view(&self) -> RecordView {
        RecordView {
            kind: self.kind@,
            hash: self.hash@,
            executable: self.executable,
            owners: self.owners.deep_view(),
        }
    }
}

/// `owners` with `owner` added, unless it is there already.
pub open spec fn owners_with(owners: Seq<Seq<char>>, owner: Seq<char>) -> Seq<Seq<char>> {
    if owners.contains(owner) {
        owners
    } else {
        owners.push(owner)
    }
}

/// The index in `strings` holding text `s`, if any.
pub fn position_of(strings: &Vec<String>, s: &str) -> (found: Option<usize>)
    ensures
        match found {
            Some(i) => i < strings@.len() && strings@[i as int]@ == s@,
            None => !strings.deep_view().contains(s@),
        },
{
    let mut i: usize = 0;
    while i < strings.len()
        invariant
            i <= strings@.len(),
            forall|k: int| 0 <= k < i ==> strings@[k]@ != s@,
        decreases strings.len() - i,
    {
        if text_eq(strings[i].as_str(), s) {
            return Some(i);
        }
        i = i + 1;
    }
    proof {
        if strings.deep_view().contains(s@) {
            let k = choose|k: int| 0 <= k < strings.deep_view().len() && strings.deep_view()[k] == s@;
            assert(strings@[k]@ == s@);
        }
    }
    None
}

/// Copies of `strings`, text for text.
pub fn copy_strings(strings: &Vec<String>) -> (copied: Vec<String>)
    ensures
        copied.deep_view() == strings.deep_view(),
{
    let mut copied: Vec<String> = Vec::new();
    let mut i: usize = 0;
    while i < strings.len()
        invariant
            i <= strings@.len(),
            copied@.len() == i,
            forall|k: int| 0 <= k < i ==> #[trigger] copied@[k]@ == strings@[k]@,
        decreases strings.len() - i,
    {
        copied.push(strings[i].clone());
        i = i + 1;
    }
    assert(copied.deep_view() =~= strings.deep_view());
    copied
}

impl ManifestEntry {
    /// A copy of this record.
    pub fn duplicate(&self) -> (copied: ManifestEntry)
        ensures
            copied@ == self@,
    {
        ManifestEntry {
            kind: self.kind.duplicate(),
            hash: self.hash.clone(),
            executable: self.executable,
            owners: copy_strings(&self.owners),
        }
    }

    /// Whether `owner` holds this path.
    pub fn held_by(&self, owner: &str) -> (held: bool)
        ensures
            held == self@.owners.contains(owner@),
    {
        match position_of(&self.owners, owner) {
            Some(i) => {
                assert(self.owners.deep_view()[i as int] == owner@);
                true
            },
            None => false,
        }
    }
}

/// The recorded state of a projection: one JSON file in a caller-chosen state
/// directory, mapping each projected path to what was last written there. Each
/// path appears once.
#[derive(Debug, Clone, PartialEq, Eq)]
pub struct Manifest {
    /// Format version; see [`MANIFEST_VERSION`].
    pub version: u32,
    /// Every path the projection owns, relative to the destination.
    pub entries: Vec<(String, ManifestEntry)>,
}

impl Manifest {
    /// Each path is recorded once, and each record names each of its owners
    /// once.
    pub open spec fn wf(&self) -> bool {
        &&& forall|i: int, j: int|
            0 <= i < self.entries@.len() && 0 <= j < self.entries@.len() && i != j
                ==> #[trigger] self.entries@[i].0@ != #[trigger] self.entries@[j].0@
        &&& forall|i: int|
            0 <= i < self.entries@.len() ==> (#[trigger] self.entries@[i]).1@.owners.no_duplicates()
    }

    /// The record at path text `path`, if any.
    pub open spec fn record(&self, path: Seq<char>) -> Option<RecordView> {
        if exists|i: int| 0 <= i < self.entries@.len() && #[trigger] self.entries@[i].0@ == path {
            let i = choose|i: int| 0 <= i < self.entries@.len() && #[trigger] self.entries@[i].0@ == path;
            Some(self.entries@[i].1@)
        } else {
            None
        }
    }

    /// An empty manifest at the current [`MANIFEST_VERSION`].
    pub fn new() -> (manifest: Self)
        ensures
            manifest.version == MANIFEST_VERSION,
            manifest.entries@.len() == 0,
            manifest.wf(),
    {
        Manifest { version: MANIFEST_VERSION, entries: Vec::new() }
    }

    /// The index of the record at `path`.
    fn index_of(&self, path: &str) -> (found: Option<usize>)
        requires
            self.wf(),
        ensures
            match found {
                Some(i) => i < self.entries@.len() && self.entries@[i as int].0@ == path@
                    && self.record(path@) == Some(self.entries@[i as int].1@),
                None => self.record(path@) is None,
            },
    {
        let mut i: usize = 0;
        while i < self.entries.len()
            invariant
                i <= self.entries@.len(),
                self.wf(),
                forall|k: int| 0 <= k < i ==> self.entries@[k].0@ != path@,
            decreases self.entries.len() - i,
        {
            if text_eq(self.entries[i].0.as_str(), path) {
                proof {
                    lemma_record_at(self, i as int);
                }
                return Some(i);
            }
            i = i + 1;
        }
        None
    }

    /// The record at `path`.
    pub fn get(&self, path: &str) -> (found: Option<&ManifestEntry>)
        requires
            self.wf(),
        ensures
            match found {
                Some(entry) => self.record(path@) == Some(entry@),
                None => self.record(path@) is None,
            },
    {
        match self.index_of(path) {
            Some(i) => Some(&self.entries[i].1),
            None => None,
        }
    }

    /// Whether `path` is recorded.
    pub fn contains_key(&self, path: &str) -> (found: bool)
        requires
            self.wf(),
        ensures
            found == self.record(path@) is Some,
    {
        self.index_of(path).is_some()
    }

    /// Records `entry` at `path`, replacing any record there; every other
    /// path keeps its record.
    pub fn insert(&mut self, path: String, entry: ManifestEntry)
        requires
            old(self).wf(),
            entry@.owners.no_duplicates(),
        ensures
            final(self).wf(),
            final(self).version == old(self).version,
            final(self).record(path@) == Some(entry@),
            forall|p: Seq<char>| p != path@ ==> final(self).record(p) == old(self).record(p),
    {
        let ghost path_text = path@;
        let ghost before = self.entries@;
        match self.index_of(path.as_str()) {
            Some(i) => {
                self.entries.set(i, (path, entry));
                proof {
                    assert(self.entries@[i as int].0@ == path_text);
                    assert forall|a: int, b: int|
                        0 <= a < self.entries@.len() && 0 <= b < self.entries@.len() && a != b
                            implies #[trigger] self.entries@[a].0@ != #[trigger] self.entries@[b].0@ by {
                        assert(before[a].0@ == self.entries@[a].0@);
                        assert(before[b].0@ == self.entries@[b].0@);
                    }
                    assert forall|k: int| 0 <= k < self.entries@.len() implies (#[trigger] self.entries@[k]).1@.owners.no_duplicates() by {
                        if k != i {
                            assert(self.entries@[k] == before[k]);
                            assert(old(self).entries@[k] == before[k]);
                        }
                    }
                    lemma_record_at(self, i as int);
                }
            },
            None => {
                self.entries.push((path, entry));
                proof {
                    let n = before.len() as int;
                    assert forall|k: int| 0 <= k < n implies before[k].0@ != path_text by {
                        if before[k].0@ == path_text {
                            assert(old(self).entries@[k].0@ == path_text);
                        }
                    }
                    assert forall|a: int, b: int|
                        0 <= a < self.entries@.len() && 0 <= b < self.entries@.len() && a != b
                            implies #[trigger] self.entries@[a].0@ != #[trigger] self.entries@[b].0@ by {
                        if a < n {
                            assert(before[a].0@ == self.entries@[a].0@);
                        }
                        if b < n {
                            assert(before[b].0@ == self.entries@[b].0@);
                        }
                    }
                    assert forall|k: int| 0 <= k < self.entries@.len() implies (#[trigger] self.entries@[k]).1@.owners.no_duplicates() by {
                        if k < n {
                            assert(self.entries@[k] == before[k]);
                            assert(old(self).entries@[k] == before[k]);
                        }
                    }
                    lemma_record_at(self, n);
                }
            },
        }
        assert forall|p: Seq<char>| p != path_text implies self.record(p) == old(self).record(p) by {
            if exists|k: int| 0 <= k < before.len() && #[trigger] before[k].0@ == p {
                let k = choose|k: int| 0 <= k < before.len() && #[trigger] before[k].0@ == p;
                assert(self.entries@[k] == before[k]);
                lemma_record_at(old(self), k);
                lemma_record_at(self, k);
            } else {
                if exists|k: int| 0 <= k < self.entries@.len() && #[trigger] self.entries@[k].0@ == p {
                    let k = choose|k: int| 0 <= k < self.entries@.len() && #[trigger] self.entries@[k].0@ == p;
                    if k < before.len() {
                        assert(before[k].0@ == p);
                    }
                }
            }
        }
    }

    /// Drops the record at `path`, if any; every other path keeps its record.
    pub fn remove(&mut self, path: &str)
        requires
            old(self).wf(),
        ensures
            final(self).wf(),
            final(self).version == old(self).version,
            final(self).record(path@) is None,
            forall|p: Seq<char>| p != path@ ==> final(self).record(p) == old(self).record(p),
    {
        if let Some(i) = self.index_of(path) {
            let ghost before = self.entries@;
            self.entries.remove(i);
            assert forall|k: int| 0 <= k < self.entries@.len() implies (#[trigger] self.entries@[k]).1@.owners.no_duplicates() by {
                if k < i {
                    assert(self.entries@[k] == before[k]);
                } else {
                    assert(self.entries@[k] == before[k + 1]);
                }
            }
            assert forall|p: Seq<char>| p != path@ implies self.record(p) == old(self).record(p) by {
                if exists|k: int| 0 <= k < before.len() && #[trigger] before[k].0@ == p {
                    let k = choose|k: int| 0 <= k < before.len() && #[trigger] before[k].0@ == p;
                    if k < i {
                        assert(self.entries@[k].0@ == p);
                    } else {
                        assert(self.entries@[k - 1].0@ == p);
                    }
                }
                if exists|k: int| 0 <= k < self.entries@.len() && #[trigger] self.entries@[k].0@ == p {
                    let k = choose|k: int| 0 <= k < self.entries@.len() && #[trigger] self.entries@[k].0@ == p;
                    if k < i {
                        assert(before[k].0@ == p);
                    } else {
                        assert(before[k + 1].0@ == p);
                    }
                }
            }
            assert(self.record(path@) is None) by {
                if exists|k: int| 0 <= k < self.entries@.len() && #[trigger] self.entries@[k].0@ == path@ {
                    let k = choose|k: int| 0 <= k < self.entries@.len() && #[trigger] self.entries@[k].0@ == path@;
                    if k < i {
                        assert(before[k].0@ == path@);
                    } else {
                        assert(before[k + 1].0@ == path@);
                    }
                }
            }
        }
    }
}

/// A well-formed manifest names each owner of a record once.
pub proof fn lemma_recorded_owners_are_distinct(m: &Manifest, path: Seq<char>)
    requires
        m.wf(),
    ensures
        m.record(path) matches Some(r) ==> r.owners.no_duplicates(),
{
    if exists|i: int| 0 <= i < m.entries@.len() && #[trigger] m.entries@[i].0@ == path {
        let i = choose|i: int| 0 <= i < m.entries@.len() && #[trigger] m.entries@[i].0@ == path;
        assert(m.entries@[i].1@.owners.no_duplicates());
    }
}

/// Adding an owner keeps the owners distinct.
pub proof fn lemma_owners_with_distinct(owners: Seq<Seq<char>>, owner: Seq<char>)
    requires
        owners.no_duplicates(),
    ensures
        owners_with(owners, owner).no_duplicates(),
{
    if !owners.contains(owner) {
        let w = owners.push(owner);
        assert forall|a: int, b: int| 0 <= a < w.len() && 0 <= b < w.len() && a != b implies w[a] != w[b] by {
            if a == owners.len() {
                assert(w[b] == owners[b]);
            } else if b == owners.len() {
                assert(w[a] == owners[a]);
            } else {
                assert(w[a] == owners[a] && w[b] == owners[b]);
            }
        }
    }
}

/// With each path recorded once, the record at a path is the one its entry
/// holds.
proof fn lemma_record_at(m: &Manifest, i: int)
    requires
        m.wf(),
        0 <= i < m.entries@.len(),
    ensures
        m.record(m.entries@[i].0@) == Some(m.entries@[i].1@),
{
    let p = m.entries@[i].0@;
    assert(exists|k: int| 0 <= k < m.entries@.len() && #[trigger] m.entries@[k].0@ == p);
    let j = choose|k: int| 0 <= k < m.entries@.len() && #[trigger] m.entries@[k].0@ == p;
    if j != i {
        assert(m.entries@[i].0@ != m.entries@[j].0@);
    }
}

impl Default for Manifest {
    fn default() -> (manifest: Self)
        ensures
            manifest.version == MANIFEST_VERSION,
            manifest.entries@.len() == 0,
    {
        Manifest::new()
    }
}

} // verus!
