//! Questions deciding asks of the destination as one walk observed it: what
//! stands at a path, what stands beneath a directory, and what keeps a
//! directory standing once the run's removals are done.

use vstd::prelude::*;

use crate::containment::{
    contained_normalize, path_starts_with, spec_contained_normalize, spec_path_starts_with,
};
use crate::decide::{Action, ActionView, DriftPolicy, Observation};
use crate::entry::{Entry, EntryKind, EntryView, KindView};
use crate::manifest::{copy_strings, position_of, Manifest, ManifestEntry, RecordView};
use crate::refusal::{Refusal, RefusalView};
use crate::text::text_eq;

verus! {

/// What one walk of the destination saw: a node per path, and the
/// directories that held a name that is not UTF-8.
#[derive(Debug)]
pub struct Observations {
    pub paths: Vec<(String, Observation)>,
    pub unreadable: Vec<String>,
}

/// What the walk saw at `p`: the last observation listed there.
pub open spec fn observed_at(paths: Seq<(String, Observation)>, p: Seq<char>) -> Option<Observation>
    decreases paths.len(),
{
    if paths.len() == 0 {
        None
    } else if paths.last().0@ == p {
        Some(paths.last().1)
    } else {
        observed_at(paths.drop_last(), p)
    }
}

/// Whether `path` is inside the state subtree `prefix`, the prefix included.
pub open spec fn spec_in_state(path: Seq<char>, prefix: Option<Seq<char>>) -> bool {
    match prefix {
        Some(p) => spec_path_starts_with(path, p),
        None => false,
    }
}

/// Whether acting at `path` would touch the state subtree: a path inside it,
/// or one it sits beneath.
pub open spec fn spec_overlaps_state(path: Seq<char>, prefix: Option<Seq<char>>) -> bool {
    match prefix {
        Some(p) => spec_path_starts_with(path, p) || spec_path_starts_with(p, path),
        None => false,
    }
}

/// The view of an optional text.
pub open spec fn opt_view(s: Option<&str>) -> Option<Seq<char>> {
    match s {
        Some(t) => Some(t@),
        None => None,
    }
}

/// Whether `path` is inside the state subtree named by `prefix`, the prefix
/// included.
pub fn in_state(path: &str, prefix: Option<&str>) -> (inside: bool)
    ensures
        inside == spec_in_state(path@, opt_view(prefix)),
{
    match prefix {
        Some(p) => path_starts_with(path, p),
        None => false,
    }
}

/// Whether acting at `path` would touch the state subtree: symmetric, so a
/// location the state directory merely sits beneath overlaps too.
pub fn overlaps_state(path: &str, prefix: Option<&str>) -> (overlaps: bool)
    ensures
        overlaps == spec_overlaps_state(path@, opt_view(prefix)),
{
    match prefix {
        Some(p) => path_starts_with(path, p) || path_starts_with(p, path),
        None => false,
    }
}

/// Whether a manifest key is one the projection may act at: the containment
/// contract a desired key passes, re-run on the recorded side so a forged
/// manifest is refused at deciding rather than mid-run.
pub fn contained(path: &str) -> (ok: bool)
    ensures
        ok == (spec_contained_normalize(path@) == Some(path@)),
{
    match contained_normalize(path) {
        Some(n) => text_eq(n.as_str(), path),
        None => false,
    }
}

impl Observations {
    /// What the walk saw at `path`.
    pub fn at(&self, path: &str) -> (found: Option<&Observation>)
        ensures
            match found {
                Some(o) => observed_at(self.paths@, path@) == Some(*o),
                None => observed_at(self.paths@, path@) is None,
            },
    {
        let mut i = self.paths.len();
        assert(self.paths@.take(i as int) =~= self.paths@);
        while i > 0
            invariant
                i <= self.paths@.len(),
                observed_at(self.paths@, path@) == observed_at(self.paths@.take(i as int), path@),
            decreases i,
        {
            proof {
                assert(self.paths@.take(i as int).drop_last() =~= self.paths@.take(i - 1));
                assert(self.paths@.take(i as int).last() == self.paths@[i - 1]);
            }
            if text_eq(self.paths[i - 1].0.as_str(), path) {
                return Some(&self.paths[i - 1].1);
            }
            i = i - 1;
        }
        None
    }
}

/// Whether the walk saw `node` as something other than absence, strictly
/// beneath `path`.
pub open spec fn is_beneath(node: Seq<char>, o: Observation, path: Seq<char>) -> bool {
    o != Observation::Absent && node != path && spec_path_starts_with(node, path)
}

/// Whether anything the walk saw stands strictly beneath `path`.
pub open spec fn anything_beneath(paths: Seq<(String, Observation)>, path: Seq<char>) -> bool {
    exists|j: int| 0 <= j < paths.len() && #[trigger] is_beneath(paths[j].0@, paths[j].1, path)
}

/// Whether a removal at one of `vacated` lies strictly beneath `dir`.
pub open spec fn emptied(vacated: Seq<Seq<char>>, dir: Seq<char>) -> bool {
    exists|i: int| 0 <= i < vacated.len() && #[trigger] spec_path_starts_with(vacated[i], dir) && vacated[i]
        != dir
}

/// Whether the run accounts for `node`: it holds a name that is not UTF-8 is
/// never accounted for, so that is checked by the caller; here, a node
/// recorded as unreadable, or, where a run's removals are known, one they
/// vacate, or a directory they empty.
pub open spec fn cleared(
    node: Seq<char>,
    o: Observation,
    unreadable: Seq<Seq<char>>,
    vacated: Option<Seq<Seq<char>>>,
) -> bool {
    unreadable.contains(node) || match vacated {
        None => false,
        Some(v) => match o {
            Observation::Directory => v.contains(node) || emptied(v, node),
            _ => v.contains(node),
        },
    }
}

/// The owners the manifest records at `node`, none where it records nothing.
pub open spec fn owners_at(manifest: Manifest, node: Seq<char>) -> Seq<Seq<char>> {
    match manifest.record(node) {
        Some(r) => r.owners,
        None => Seq::empty(),
    }
}

/// What stands beneath `path` that nothing clears, over the first `n`
/// observations: whether anything does, and the leaves holding it with their
/// owners. A directory held up by what it holds is explained by the nodes
/// below it rather than named itself.
pub open spec fn holding(
    paths: Seq<(String, Observation)>,
    n: int,
    path: Seq<char>,
    manifest: Manifest,
    unreadable: Seq<Seq<char>>,
    vacated: Option<Seq<Seq<char>>>,
) -> (bool, Seq<(Seq<char>, Seq<Seq<char>>)>)
    decreases n,
{
    if n <= 0 {
        (false, Seq::empty())
    } else {
        let (held, leaves) = holding(paths, n - 1, path, manifest, unreadable, vacated);
        let node = paths[n - 1].0@;
        let o = paths[n - 1].1;
        if !is_beneath(node, o, path) || cleared(node, o, unreadable, vacated) {
            (held, leaves)
        } else if o == Observation::Directory && anything_beneath(paths, node) {
            (true, leaves)
        } else {
            (true, leaves.push((node, owners_at(manifest, node))))
        }
    }
}

/// The directories at or beneath `path` that held a name that is not UTF-8.
pub open spec fn unreadable_under(unreadable: Seq<Seq<char>>, n: int, path: Seq<char>) -> Seq<Seq<char>>
    decreases n,
{
    if n <= 0 {
        Seq::empty()
    } else {
        let before = unreadable_under(unreadable, n - 1, path);
        if spec_path_starts_with(unreadable[n - 1], path) {
            before.push(unreadable[n - 1])
        } else {
            before
        }
    }
}

/// The directories at or beneath `path` whose listing held a name that is not
/// UTF-8, so no reading of what a run removes concludes they empty.
pub fn unreadable_beneath(path: &str, observations: &Observations) -> (found: Vec<String>)
    ensures
        found.deep_view() == unreadable_under(
            observations.unreadable.deep_view(),
            observations.unreadable@.len() as int,
            path@,
        ),
{
    let ghost all = observations.unreadable.deep_view();
    let mut found: Vec<String> = Vec::new();
    let mut i: usize = 0;
    while i < observations.unreadable.len()
        invariant
            i <= observations.unreadable@.len(),
            all == observations.unreadable.deep_view(),
            found.deep_view() == unreadable_under(all, i as int, path@),
        decreases observations.unreadable.len() - i,
    {
        if path_starts_with(observations.unreadable[i].as_str(), path) {
            let ghost before = found.deep_view();
            found.push(observations.unreadable[i].clone());
            assert(found.deep_view() =~= before.push(all[i as int]));
        }
        i = i + 1;
    }
    found
}

/// Whether anything the walk saw stands strictly beneath `path`.
fn has_beneath(path: &str, observations: &Observations) -> (any: bool)
    ensures
        any == anything_beneath(observations.paths@, path@),
{
    let mut j: usize = 0;
    while j < observations.paths.len()
        invariant
            j <= observations.paths@.len(),
            forall|k: int|
                0 <= k < j ==> !#[trigger] is_beneath(
                    observations.paths@[k].0@,
                    observations.paths@[k].1,
                    path@,
                ),
        decreases observations.paths.len() - j,
    {
        let (node, o) = &observations.paths[j];
        let absent = match o {
            Observation::Absent => true,
            _ => false,
        };
        if !absent && !text_eq(node.as_str(), path) && path_starts_with(node.as_str(), path) {
            assert(is_beneath(observations.paths@[j as int].0@, observations.paths@[j as int].1, path@));
            return true;
        }
        j = j + 1;
    }
    false
}

/// Whether one of `vacated` lies strictly beneath `dir`.
fn empties(vacated: &Vec<String>, dir: &str) -> (any: bool)
    ensures
        any == emptied(vacated.deep_view(), dir@),
{
    let mut i: usize = 0;
    while i < vacated.len()
        invariant
            i <= vacated@.len(),
            forall|k: int|
                0 <= k < i ==> !(#[trigger] spec_path_starts_with(vacated.deep_view()[k], dir@)
                    && vacated.deep_view()[k] != dir@),
        decreases vacated.len() - i,
    {
        if path_starts_with(vacated[i].as_str(), dir) && !text_eq(vacated[i].as_str(), dir) {
            assert(spec_path_starts_with(vacated.deep_view()[i as int], dir@));
            return true;
        }
        i = i + 1;
    }
    false
}

/// Whether `texts` holds `t`.
pub(crate) fn holds_text(texts: &Vec<String>, t: &str) -> (held: bool)
    ensures
        held == texts.deep_view().contains(t@),
{
    match position_of(texts, t) {
        Some(i) => {
            assert(texts.deep_view()[i as int] == t@);
            true
        },
        None => false,
    }
}

/// The owners the manifest records at `node`.
fn owners_of(manifest: &Manifest, node: &str) -> (owners: Vec<String>)
    requires
        manifest.wf(),
    ensures
        owners.deep_view() == owners_at(*manifest, node@),
{
    match manifest.get(node) {
        Some(recorded) => copy_strings(&recorded.owners),
        None => {
            let v: Vec<String> = Vec::new();
            assert(v.deep_view() =~= Seq::<Seq<char>>::empty());
            v
        },
    }
}

/// What stands beneath `path` that the run does not account for, and whether
/// anything does.
pub fn holding_beneath(
    path: &str,
    manifest: &Manifest,
    observations: &Observations,
    unreadable: &Vec<String>,
    vacated: Option<&Vec<String>>,
) -> (found: (bool, Vec<(String, Vec<String>)>))
    requires
        manifest.wf(),
    ensures
        ({
            let (held, leaves) = holding(
                observations.paths@,
                observations.paths@.len() as int,
                path@,
                *manifest,
                unreadable.deep_view(),
                match vacated {
                    Some(v) => Some(v.deep_view()),
                    None => None,
                },
            );
            &&& found.0 == held
            &&& leaves_view(found.1@) == leaves
        }),
{
    let ghost vac = match vacated {
        Some(v) => Some(v.deep_view()),
        None => None,
    };
    let mut held = false;
    let mut leaves: Vec<(String, Vec<String>)> = Vec::new();
    let mut i: usize = 0;
    while i < observations.paths.len()
        invariant
            i <= observations.paths@.len(),
            manifest.wf(),
            vac == match vacated {
                Some(v) => Some(v.deep_view()),
                None => None,
            },
            ({
                let (h, l) = holding(
                    observations.paths@,
                    i as int,
                    path@,
                    *manifest,
                    unreadable.deep_view(),
                    vac,
                );
                held == h && leaves_view(leaves@) == l
            }),
        decreases observations.paths.len() - i,
    {
        let (node, o) = &observations.paths[i];
        let absent = match o {
            Observation::Absent => true,
            _ => false,
        };
        let is_under = !absent && !text_eq(node.as_str(), path) && path_starts_with(node.as_str(), path);
        let is_dir = match o {
            Observation::Directory => true,
            _ => false,
        };
        let clear = holds_text(unreadable, node.as_str()) || match vacated {
            None => false,
            Some(v) => if is_dir {
                holds_text(v, node.as_str()) || empties(v, node.as_str())
            } else {
                holds_text(v, node.as_str())
            },
        };
        if is_under && !clear {
            held = true;
            if !(is_dir && has_beneath(node.as_str(), observations)) {
                let ghost before = leaves@;
                leaves.push((node.clone(), owners_of(manifest, node.as_str())));
                assert(leaves_view(leaves@) =~= leaves_view(before).push(
                    (observations.paths@[i as int].0@, owners_at(*manifest, observations.paths@[i as int].0@)),
                ));
            }
        }
        i = i + 1;
    }
    (held, leaves)
}

/// The view of what holds a directory up.
pub open spec fn leaves_view(leaves: Seq<(String, Vec<String>)>) -> Seq<(Seq<char>, Seq<Seq<char>>)> {
    Seq::new(leaves.len(), |i: int| (leaves[i].0@, leaves[i].1.deep_view()))
}

/// What keeps the unrecorded directory at `path` standing after this run's
/// removals: `None` where the run empties it and pruning takes it. A
/// directory holding nothing at all is someone else's, not the projection's
/// scaffolding, and is refused with nothing named.
pub fn directory_in_the_way(
    path: &str,
    manifest: &Manifest,
    observations: &Observations,
    vacated: &Vec<String>,
) -> (refusal: Option<Refusal>)
    requires
        manifest.wf(),
    ensures
        ({
            let unreadable = unreadable_under(
                observations.unreadable.deep_view(),
                observations.unreadable@.len() as int,
                path@,
            );
            let (held, leaves) = holding(
                observations.paths@,
                observations.paths@.len() as int,
                path@,
                *manifest,
                unreadable,
                Some(vacated.deep_view()),
            );
            let blocked = held || unreadable.len() > 0;
            if blocked || !emptied(vacated.deep_view(), path@) {
                refusal matches Some(r) && r@ == (RefusalView::DirectoryInTheWay {
                    holding: leaves,
                    unreadable,
                })
            } else {
                refusal is None
            }
        }),
{
    let unreadable = unreadable_beneath(path, observations);
    let (held, leaves) = holding_beneath(path, manifest, observations, &unreadable, Some(vacated));
    let blocked = held || unreadable.len() > 0;
    if blocked || !empties(vacated, path) {
        let ghost lv = leaves_view(leaves@);
        let r = Refusal::DirectoryInTheWay { holding: leaves, unreadable };
        proof {
            assert(r@ matches RefusalView::DirectoryInTheWay { holding: h, .. } && h =~= lv);
        }
        Some(r)
    } else {
        None
    }
}


/// What drifting into a directory makes of a record `owner` holds alone: only
/// an empty directory goes, and only where `policy` lifts the drift; `None`
/// where the path is no directory on disk, is a block, or is a record the
/// owner does not hold alone.
pub open spec fn spec_drifted_directory(
    owner: Seq<char>,
    path: Seq<char>,
    recorded: RecordView,
    manifest: Manifest,
    observations: Observations,
    policy: DriftPolicy,
    clear: ActionView,
) -> Option<ActionView> {
    if observed_at(observations.paths@, path) != Some(Observation::Directory)
        || recorded.kind is Block || recorded.owners.len() > 1 || !recorded.owners.contains(owner) {
        None
    } else {
        let unreadable = unreadable_under(
            observations.unreadable.deep_view(),
            observations.unreadable@.len() as int,
            path,
        );
        let (held, leaves) = holding(
            observations.paths@,
            observations.paths@.len() as int,
            path,
            manifest,
            unreadable,
            None,
        );
        if held || unreadable.len() > 0 {
            Some(ActionView::Refuse {
                refusal: RefusalView::DirectoryInTheWay { holding: leaves, unreadable },
            })
        } else {
            match policy {
                DriftPolicy::Refuse => Some(ActionView::Refuse { refusal: RefusalView::Drift }),
                DriftPolicy::Overwrite => Some(clear),
            }
        }
    }
}

/// The action for a recorded path whose on-disk node is a directory, `clear`
/// where the drift is lifted.
pub fn drifted_directory(
    owner: &str,
    path: &str,
    recorded: &ManifestEntry,
    manifest: &Manifest,
    observations: &Observations,
    policy: DriftPolicy,
    clear: Action,
) -> (action: Option<Action>)
    requires
        manifest.wf(),
    ensures
        match action {
            Some(a) => spec_drifted_directory(owner@, path@, recorded@, *manifest, *observations, policy, clear@)
                == Some(a@),
            None => spec_drifted_directory(owner@, path@, recorded@, *manifest, *observations, policy, clear@)
                is None,
        },
{
    let is_dir = match observations.at(path) {
        Some(Observation::Directory) => true,
        _ => false,
    };
    let is_block = match &recorded.kind {
        EntryKind::Block { .. } => true,
        _ => false,
    };
    if !is_dir || is_block || recorded.owners.len() > 1 || !holds_text(&recorded.owners, owner) {
        assert(recorded@.owners.len() == recorded.owners@.len());
        return None;
    }
    assert(recorded@.owners.len() == recorded.owners@.len());
    let unreadable = unreadable_beneath(path, observations);
    let (held, leaves) = holding_beneath(path, manifest, observations, &unreadable, None);
    if held || unreadable.len() > 0 {
        let ghost lv = leaves_view(leaves@);
        let r = Refusal::DirectoryInTheWay { holding: leaves, unreadable };
        assert(r@ matches RefusalView::DirectoryInTheWay { holding: h, .. } && h =~= lv);
        return Some(Action::Refuse { refusal: r });
    }
    match policy {
        DriftPolicy::Refuse => Some(Action::Refuse { refusal: Refusal::Drift }),
        DriftPolicy::Overwrite => Some(clear),
    }
}

/// The action for a desired path standing on a directory: the write that
/// clears the projection's own scaffolding out of the way, the overwrite that
/// replaces an empty directory the record drifted into, or the refusal naming
/// what holds the directory in place; `None` leaves the path to the ordinary
/// action table.
pub open spec fn spec_directory_action(
    owner: Seq<char>,
    path: Seq<char>,
    entry: EntryView,
    manifest: Manifest,
    observations: Observations,
    vacated: Seq<Seq<char>>,
    policy: DriftPolicy,
) -> Option<ActionView> {
    if observed_at(observations.paths@, path) != Some(Observation::Directory) || entry is Block {
        None
    } else {
        match manifest.record(path) {
            Some(recorded) => spec_drifted_directory(
                owner,
                path,
                recorded,
                manifest,
                observations,
                policy,
                ActionView::OverwriteDirectory { entry },
            ),
            None => {
                let unreadable = unreadable_under(
                    observations.unreadable.deep_view(),
                    observations.unreadable@.len() as int,
                    path,
                );
                let (held, leaves) = holding(
                    observations.paths@,
                    observations.paths@.len() as int,
                    path,
                    manifest,
                    unreadable,
                    Some(vacated),
                );
                if held || unreadable.len() > 0 || !emptied(vacated, path) {
                    Some(ActionView::Refuse {
                        refusal: RefusalView::DirectoryInTheWay { holding: leaves, unreadable },
                    })
                } else {
                    Some(ActionView::Write { entry })
                }
            },
        }
    }
}

/// The action for a desired path standing on a directory.
pub fn directory_action(
    owner: &str,
    path: &str,
    entry: &Entry,
    manifest: &Manifest,
    observations: &Observations,
    vacated: &Vec<String>,
    policy: DriftPolicy,
) -> (action: Option<Action>)
    requires
        manifest.wf(),
    ensures
        match action {
            Some(a) => spec_directory_action(owner@, path@, entry@, *manifest, *observations, vacated.deep_view(), policy)
                == Some(a@),
            None => spec_directory_action(owner@, path@, entry@, *manifest, *observations, vacated.deep_view(), policy)
                is None,
        },
{
    let is_dir = match observations.at(path) {
        Some(Observation::Directory) => true,
        _ => false,
    };
    let is_block = match entry {
        Entry::Block { .. } => true,
        _ => false,
    };
    if !is_dir || is_block {
        return None;
    }
    match manifest.get(path) {
        Some(recorded) => drifted_directory(
            owner,
            path,
            recorded,
            manifest,
            observations,
            policy,
            Action::OverwriteDirectory { entry: entry.duplicate() },
        ),
        None => Some(
            match directory_in_the_way(path, manifest, observations, vacated) {
                Some(r) => Action::Refuse { refusal: r },
                None => Action::Write { entry: entry.duplicate() },
            },
        ),
    }
}


// ---- classifying every path the manifest or the walk knows ----

/// What a row states of a recorded path's node.
#[derive(Debug, PartialEq, Eq)]
pub enum PathShape {
    File { executable: bool },
    /// A link, with the target the disk names where it names one as text.
    Symlink { target: Option<String> },
    Block,
}

/// What a row states of a recorded path besides its verdict.
#[derive(Debug, PartialEq, Eq)]
pub struct PathFacts {
    pub shape: Option<PathShape>,
    pub owners: Vec<String>,
}

/// One path's classification.
#[derive(Debug, PartialEq, Eq)]
pub struct Row {
    /// The record's facts, where the path is recorded.
    pub facts: Option<PathFacts>,
    pub verdict: crate::decide::PathState,
}

/// The mathematical value of a [`PathShape`].
pub enum ShapeView {
    File { executable: bool },
    Symlink { target: Option<Seq<char>> },
    Block,
}

/// The shape a record states, with a link's target taken off the node the
/// walk saw there.
pub open spec fn spec_shape(recorded: RecordView, observed: Option<Observation>) -> ShapeView {
    match recorded.kind {
        KindView::File => ShapeView::File { executable: recorded.executable },
        KindView::Symlink => ShapeView::Symlink {
            target: match observed {
                Some(Observation::Symlink { target: Some(t), .. }) => Some(t@),
                _ => None,
            },
        },
        KindView::Block { .. } => ShapeView::Block,
    }
}

impl PathShape {
    /// The mathematical value of this shape.
    pub open spec fn view_of(&self) -> ShapeView {
        match self {
            PathShape::File { executable } => ShapeView::File { executable: *executable },
            PathShape::Symlink { target } => ShapeView::Symlink {
                target: match target {
                    Some(t) => Some(t@),
                    None => None,
                },
            },
            PathShape::Block => ShapeView::Block,
        }
    }
}

/// A row's value: its facts, where recorded, as shape and owners, and its
/// verdict.
pub open spec fn row_view(row: Row) -> (Option<(ShapeView, Seq<Seq<char>>)>, crate::decide::PathState) {
    (
        match row.facts {
            Some(f) => Some(
                (
                    match f.shape {
                        Some(sh) => sh.view_of(),
                        None => ShapeView::Block,
                    },
                    f.owners.deep_view(),
                ),
            ),
            None => None,
        },
        row.verdict,
    )
}

/// What a record states of its path, with the node the walk saw there.
pub fn recorded_facts(recorded: &ManifestEntry, observed: Option<&Observation>) -> (facts: PathFacts)
    ensures
        facts.shape matches Some(sh) && sh.view_of() == spec_shape(
            recorded@,
            match observed {
                Some(o) => Some(*o),
                None => None,
            },
        ),
        facts.owners.deep_view() == recorded@.owners,
{
    let shape = match &recorded.kind {
        EntryKind::File => PathShape::File { executable: recorded.executable },
        EntryKind::Symlink => PathShape::Symlink {
            target: match observed {
                Some(Observation::Symlink { target: Some(t), .. }) => Some(t.clone()),
                _ => None,
            },
        },
        EntryKind::Block { .. } => PathShape::Block,
    };
    PathFacts { shape: Some(shape), owners: copy_strings(&recorded.owners) }
}

/// The row the walk's observation of `node` contributes, if any: a recorded
/// path classified against what stands there, an unrecorded node as foreign,
/// and an unrecorded absence as nothing.
pub open spec fn observed_row(manifest: Manifest, node: Seq<char>, o: Observation) -> Option<
    (Option<(ShapeView, Seq<Seq<char>>)>, crate::decide::PathState),
> {
    match manifest.record(node) {
        Some(r) => Some(
            (
                Some((spec_shape(r, Some(o)), r.owners)),
                crate::decide::spec_recorded_state(r, Some(o)),
            ),
        ),
        None => if o == Observation::Absent {
            None
        } else {
            Some((None, crate::decide::PathState::Foreign))
        },
    }
}

/// The rows of the first `n` observations, outside the state subtree.
pub open spec fn observed_rows(
    manifest: Manifest,
    paths: Seq<(String, Observation)>,
    n: int,
    prefix: Option<Seq<char>>,
) -> Seq<(Seq<char>, (Option<(ShapeView, Seq<Seq<char>>)>, crate::decide::PathState))>
    decreases n,
{
    if n <= 0 {
        Seq::empty()
    } else {
        let before = observed_rows(manifest, paths, n - 1, prefix);
        let node = paths[n - 1].0@;
        if spec_in_state(node, prefix) {
            before
        } else {
            match observed_row(manifest, node, paths[n - 1].1) {
                Some(row) => before.push((node, row)),
                None => before,
            }
        }
    }
}

/// Whether the rows hold one for `p`.
pub open spec fn has_row<T>(rows: Seq<(Seq<char>, T)>, p: Seq<char>) -> bool {
    exists|i: int| 0 <= i < rows.len() && #[trigger] rows[i].0 == p
}

/// `rows` followed by a `Missing` row for each of the first `n` records
/// outside the state subtree that has none yet.
pub open spec fn missing_rows(
    rows: Seq<(Seq<char>, (Option<(ShapeView, Seq<Seq<char>>)>, crate::decide::PathState))>,
    entries: Seq<(String, ManifestEntry)>,
    n: int,
    prefix: Option<Seq<char>>,
) -> Seq<(Seq<char>, (Option<(ShapeView, Seq<Seq<char>>)>, crate::decide::PathState))>
    decreases n,
{
    if n <= 0 {
        rows
    } else {
        let before = missing_rows(rows, entries, n - 1, prefix);
        let p = entries[n - 1].0@;
        let r = entries[n - 1].1@;
        if spec_in_state(p, prefix) || has_row(before, p) {
            before
        } else {
            before.push((p, (Some((spec_shape(r, None), r.owners)), crate::decide::PathState::Missing)))
        }
    }
}

/// One row per path the walk saw or the manifest records, outside the state
/// subtree: the walk's in the order it saw them, then each record it did not
/// see, as missing.
pub open spec fn spec_classify(manifest: Manifest, observations: Observations, prefix: Option<Seq<char>>) -> Seq<
    (Seq<char>, (Option<(ShapeView, Seq<Seq<char>>)>, crate::decide::PathState)),
> {
    missing_rows(
        observed_rows(manifest, observations.paths@, observations.paths@.len() as int, prefix),
        manifest.entries@,
        manifest.entries@.len() as int,
        prefix,
    )
}

/// The values of `rows`.
pub open spec fn rows_view(rows: Seq<(String, Row)>) -> Seq<
    (Seq<char>, (Option<(ShapeView, Seq<Seq<char>>)>, crate::decide::PathState)),
> {
    Seq::new(rows.len(), |i: int| (rows[i].0@, row_view(rows[i].1)))
}

/// Whether `rows` holds a row for `p`.
fn row_index(rows: &Vec<(String, Row)>, p: &str) -> (found: bool)
    ensures
        found == has_row(rows_view(rows@), p@),
{
    let mut i: usize = 0;
    while i < rows.len()
        invariant
            i <= rows@.len(),
            forall|k: int| 0 <= k < i ==> rows@[k].0@ != p@,
        decreases rows.len() - i,
    {
        if text_eq(rows[i].0.as_str(), p) {
            assert(rows_view(rows@)[i as int].0 == p@);
            return true;
        }
        i = i + 1;
    }
    proof {
        if has_row(rows_view(rows@), p@) {
            let k = choose|k: int| 0 <= k < rows_view(rows@).len() && #[trigger] rows_view(rows@)[k].0 == p@;
            assert(rows@[k].0@ == p@);
        }
    }
    false
}

/// One row per path in the union of the manifest and the observations,
/// skipping the state subtree named by `prefix`.
pub fn classify(manifest: &Manifest, observations: &Observations, prefix: Option<&str>) -> (rows: Vec<
    (String, Row),
>)
    requires
        manifest.wf(),
    ensures
        rows_view(rows@) == spec_classify(*manifest, *observations, opt_view(prefix)),
{
    let ghost pv = opt_view(prefix);
    let mut rows: Vec<(String, Row)> = Vec::new();
    let mut i: usize = 0;
    assert(rows_view(rows@) =~= Seq::empty());
    while i < observations.paths.len()
        invariant
            i <= observations.paths@.len(),
            manifest.wf(),
            pv == opt_view(prefix),
            rows_view(rows@) == observed_rows(*manifest, observations.paths@, i as int, pv),
        decreases observations.paths.len() - i,
    {
        let (path, observation) = &observations.paths[i];
        if !in_state(path.as_str(), prefix) {
            match manifest.get(path.as_str()) {
                Some(recorded) => {
                    let facts = recorded_facts(recorded, Some(observation));
                    let verdict = crate::decide::recorded_state(recorded, Some(observation));
                    let ghost before = rows_view(rows@);
                    rows.push((path.clone(), Row { facts: Some(facts), verdict }));
                    assert(rows_view(rows@) =~= before.push(
                        (path@, observed_row(*manifest, path@, *observation)->0),
                    ));
                },
                None => {
                    let absent = match observation {
                        Observation::Absent => true,
                        _ => false,
                    };
                    if !absent {
                        let ghost before = rows_view(rows@);
                        rows.push(
                            (path.clone(), Row { facts: None, verdict: crate::decide::PathState::Foreign }),
                        );
                        assert(rows_view(rows@) =~= before.push(
                            (path@, observed_row(*manifest, path@, *observation)->0),
                        ));
                    }
                },
            }
        }
        i = i + 1;
    }
    let ghost seen = rows_view(rows@);
    let mut j: usize = 0;
    while j < manifest.entries.len()
        invariant
            j <= manifest.entries@.len(),
            manifest.wf(),
            pv == opt_view(prefix),
            seen == observed_rows(*manifest, observations.paths@, observations.paths@.len() as int, pv),
            rows_view(rows@) == missing_rows(seen, manifest.entries@, j as int, pv),
        decreases manifest.entries.len() - j,
    {
        let (path, recorded) = &manifest.entries[j];
        if !in_state(path.as_str(), prefix) && !row_index(&rows, path.as_str()) {
            let facts = recorded_facts(recorded, None);
            let ghost before = rows_view(rows@);
            rows.push((path.clone(), Row { facts: Some(facts), verdict: crate::decide::PathState::Missing }));
            assert(rows_view(rows@) =~= before.push(
                (path@, (Some((spec_shape(recorded@, None), recorded@.owners)), crate::decide::PathState::Missing)),
            ));
        }
        j = j + 1;
    }
    rows
}


/// `rows` less every foreign one the walk saw as a directory.
pub open spec fn without_foreign_directories(
    rows: Seq<(Seq<char>, (Option<(ShapeView, Seq<Seq<char>>)>, crate::decide::PathState))>,
    paths: Seq<(String, Observation)>,
) -> Seq<(Seq<char>, (Option<(ShapeView, Seq<Seq<char>>)>, crate::decide::PathState))>
    decreases rows.len(),
{
    if rows.len() == 0 {
        rows
    } else {
        let before = without_foreign_directories(rows.drop_last(), paths);
        let (p, row) = rows.last();
        if row.1 == crate::decide::PathState::Foreign && observed_at(paths, p) == Some(
            Observation::Directory,
        ) {
            before
        } else {
            before.push(rows.last())
        }
    }
}

/// [`classify`], less every unrecorded path observed as a directory: what a
/// status report shows.
pub fn status(manifest: &Manifest, observations: &Observations, prefix: Option<&str>) -> (rows: Vec<
    (String, Row),
>)
    requires
        manifest.wf(),
    ensures
        rows_view(rows@) == without_foreign_directories(
            spec_classify(*manifest, *observations, opt_view(prefix)),
            observations.paths@,
        ),
{
    let mut taken = classify(manifest, observations, prefix);
    let ghost full = rows_view(taken@);
    let n = taken.len();
    let mut kept: Vec<(String, Row)> = Vec::new();
    let mut i: usize = 0;
    assert(rows_view(kept@) =~= Seq::empty());
    assert(full.skip(0) =~= full);
    while taken.len() > 0
        invariant
            i + taken@.len() == n,
            n == full.len(),
            rows_view(taken@) == full.skip(i as int),
            rows_view(kept@) == without_foreign_directories(full.take(i as int), observations.paths@),
        decreases taken.len(),
    {
        let ghost old_taken = taken@;
        let (path, row) = taken.remove(0);
        proof {
            assert(full.take(i + 1).drop_last() =~= full.take(i as int));
            assert(full.take(i + 1).last() == full[i as int]);
            assert(rows_view(old_taken)[0] == full.skip(i as int)[0]);
            assert(full[i as int] == (path@, row_view(row)));
            assert(taken@ =~= old_taken.drop_first());
            assert forall|k: int| 0 <= k < taken@.len() implies #[trigger] rows_view(taken@)[k]
                == full.skip(i + 1)[k] by {
                assert(rows_view(taken@)[k] == rows_view(old_taken)[k + 1]);
                assert(rows_view(old_taken)[k + 1] == full.skip(i as int)[k + 1]);
            }
            assert(rows_view(taken@) =~= full.skip(i + 1));
        }
        let foreign = match row.verdict {
            crate::decide::PathState::Foreign => true,
            _ => false,
        };
        let dir = match observations.at(path.as_str()) {
            Some(Observation::Directory) => true,
            _ => false,
        };
        if !(foreign && dir) {
            let ghost before = rows_view(kept@);
            let ghost entry = (path@, row_view(row));
            kept.push((path, row));
            assert(rows_view(kept@) =~= before.push(entry));
        }
        i = i + 1;
    }
    assert(full.take(n as int) =~= full);
    kept
}

} // verus!
