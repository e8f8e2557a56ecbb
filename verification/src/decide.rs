//! The deciding stage's per-path rules: how a recorded path classifies
//! against what stands on disk, and which action a desired or orphaned path
//! earns. Pure over values, with no filesystem access.

use vstd::prelude::*;
use vstd::string::StringSliceAdditionalSpecFns;

use crate::block::{entry_fault, spec_entry_fault};
use crate::entry::{Entry, EntryKind, EntryView, KindView, Placement};
use crate::hash::{sha256_hex, spec_sha256_hex};
use crate::manifest::{ManifestEntry, RecordView};
use crate::refusal::{BlockFault, Refusal, RefusalView};
use crate::text::text_eq;

verus! {

/// How a path stands relative to the manifest.
#[derive(Debug, Clone, Copy, PartialEq, Eq, PartialOrd, Ord)]
pub enum PathState {
    /// Recorded, and the disk holds exactly what was recorded.
    Clean,
    /// Recorded, and the disk holds something else.
    Drifted,
    /// Recorded, and nothing stands there.
    Missing,
    /// On disk, and never recorded.
    Foreign,
}

/// What a run does with a recorded path that drifted.
#[derive(Debug, Clone, Copy, PartialEq, Eq, Default)]
pub enum DriftPolicy {
    /// Decline to touch it.
    #[default]
    Refuse,
    /// Replace or remove it, where the projection can still tell what it
    /// would replace.
    Overwrite,
}

/// Whether a symlink may point outside the destination.
#[derive(Debug, Clone, Copy, PartialEq, Eq, Default)]
pub enum ExternalTargetPolicy {
    #[default]
    Refuse,
    Allow,
}

/// The two permissions a plan is decided under.
#[derive(Debug, Clone, Copy, PartialEq, Eq, Default)]
pub struct PlanOptions {
    pub drift: DriftPolicy,
    pub external_targets: ExternalTargetPolicy,
}

/// What a container holds under a desired block's own marker and placement,
/// where they differ from the recorded ones or nothing is recorded.
#[derive(Debug, Clone, PartialEq, Eq)]
pub struct DesiredRegion {
    /// The hash of the region the desired marker locates, if any.
    pub hash: Option<String>,
    /// How many whole lines carry the desired marker.
    pub occurrences: usize,
    /// Whether the author's side outside that region ends with `\n`.
    pub author_newline_terminated: bool,
}

/// What the destination walk saw at one path.
#[derive(Debug, Clone, PartialEq, Eq)]
pub enum Observation {
    /// Nothing stands there.
    Absent,
    /// A regular file, by the hash of its bytes and its executable bit.
    File { hash: String, executable: bool },
    /// A symlink, by the hash of its raw target and the target as text where
    /// it is UTF-8.
    Symlink { hash: String, target: Option<String> },
    /// A container of a recorded block: the hash of the region the recorded
    /// marker locates, how many lines carry that marker, whether the author's
    /// side ends with `\n`, and what the desired marker finds.
    Block {
        hash: Option<String>,
        occurrences: usize,
        newline_terminated: bool,
        desired: Option<DesiredRegion>,
    },
    /// A directory.
    Directory,
    /// Anything else.
    Other,
}

/// What apply re-checks a node against before touching it.
#[derive(Debug, Clone, PartialEq, Eq)]
pub struct NodeSignature {
    pub kind: EntryKind,
    pub hash: String,
    pub executable: bool,
}

/// The mathematical value of a [`NodeSignature`].
pub struct SignatureView {
    pub kind: KindView,
    pub hash: Seq<char>,
    pub executable: bool,
}

impl View for NodeSignature {
    type V = SignatureView;

    open spec fn view(&self) -> SignatureView {
        SignatureView { kind: self.kind@, hash: self.hash@, executable: self.executable }
    }
}

/// Why a clean path is overwritten.
#[derive(Debug, Clone, Copy, PartialEq, Eq, PartialOrd, Ord)]
pub enum OverwriteReason {
    ContentChanged,
    ExecutableChanged,
    ForcedDrift,
}

/// The one action a plan holds for a path.
#[derive(Debug, Clone, PartialEq, Eq)]
pub enum Action {
    /// Put the entry where nothing stands.
    Write { entry: Entry },
    /// Replace the node the signature describes.
    Overwrite { entry: Entry, expected: NodeSignature, reason: OverwriteReason },
    /// Replace the empty directory a record drifted into.
    OverwriteDirectory { entry: Entry },
    /// Remove the empty directory an orphaned record drifted into.
    RemoveDirectory,
    /// Disk already holds the entry; re-check and record.
    Skip { entry: Entry, expected: NodeSignature },
    /// Remove the orphaned node, or, expecting nothing, only its record.
    Remove { expected: Option<NodeSignature> },
    /// Drop this owner from a path other owners still hold.
    Release,
    /// A removal named a path this owner does not hold.
    NotRecorded,
    /// Decline to touch the path.
    Refuse { refusal: Refusal },
}

/// The mathematical value of an [`Action`].
pub enum ActionView {
    Write { entry: EntryView },
    Overwrite { entry: EntryView, expected: SignatureView, reason: OverwriteReason },
    OverwriteDirectory { entry: EntryView },
    RemoveDirectory,
    Skip { entry: EntryView, expected: SignatureView },
    Remove { expected: Option<SignatureView> },
    Release,
    NotRecorded,
    Refuse { refusal: RefusalView },
}

impl View for Action {
    type V = ActionView;

    open spec fn view(&self) -> ActionView {
        match self {
            Action::Write { entry } => ActionView::Write { entry: entry@ },
            Action::Overwrite { entry, expected, reason } => ActionView::Overwrite {
                entry: entry@,
                expected: expected@,
                reason: *reason,
            },
            Action::OverwriteDirectory { entry } => ActionView::OverwriteDirectory { entry: entry@ },
            Action::RemoveDirectory => ActionView::RemoveDirectory,
            Action::Skip { entry, expected } => ActionView::Skip {
                entry: entry@,
                expected: expected@,
            },
            Action::Remove { expected } => ActionView::Remove {
                expected: match expected {
                    Some(e) => Some(e@),
                    None => None,
                },
            },
            Action::Release => ActionView::Release,
            Action::NotRecorded => ActionView::NotRecorded,
            Action::Refuse { refusal } => ActionView::Refuse { refusal: refusal@ },
        }
    }
}

// ---- the rules, stated over values ----

/// The hash a manifest records for an entry: of the file's contents, the
/// symlink target's bytes, or a block's body alone.
pub open spec fn spec_desired_hash(entry: EntryView) -> Seq<char> {
    match entry {
        EntryView::File { contents, .. } => spec_sha256_hex(contents),
        EntryView::Symlink { target } => spec_sha256_hex(vstd::utf8::encode_utf8(target)),
        EntryView::Block { body, .. } => spec_sha256_hex(body),
    }
}

/// The executable bit a manifest records for an entry: a file's own, and
/// `false` for everything else.
pub open spec fn spec_desired_executable(entry: EntryView) -> bool {
    match entry {
        EntryView::File { executable, .. } => executable,
        _ => false,
    }
}

pub open spec fn spec_desired_signature(entry: EntryView) -> SignatureView {
    SignatureView {
        kind: entry.kind(),
        hash: spec_desired_hash(entry),
        executable: spec_desired_executable(entry),
    }
}

pub open spec fn spec_recorded_signature(recorded: RecordView) -> SignatureView {
    SignatureView { kind: recorded.kind, hash: recorded.hash, executable: recorded.executable }
}

/// The hash of the region an observation identifies: only a container whose
/// marker sits on exactly one line identifies one.
pub open spec fn spec_identified_region(observation: Observation) -> Option<Seq<char>> {
    match observation {
        Observation::Block { hash: Some(hash), occurrences, .. } => if occurrences == 1 {
            Some(hash@)
        } else {
            None
        },
        _ => None,
    }
}

/// Whether the observed node is exactly the recorded entry.
pub open spec fn spec_observation_matches_recorded(
    recorded: RecordView,
    observation: Observation,
) -> bool {
    match (recorded.kind, observation) {
        (KindView::File, Observation::File { hash, executable }) => hash@ == recorded.hash
            && executable == recorded.executable,
        (KindView::Symlink, Observation::Symlink { hash, .. }) => hash@ == recorded.hash,
        (KindView::Block { .. }, observation) => spec_identified_region(observation) == Some(
            recorded.hash,
        ),
        _ => false,
    }
}

/// The state of a recorded path, given what stands where a walk to it comes
/// out; `None` is a location the walk never reached.
pub open spec fn spec_recorded_state(recorded: RecordView, observation: Option<Observation>) -> PathState {
    match observation {
        None => PathState::Missing,
        Some(Observation::Absent) => PathState::Missing,
        Some(observation) => if recorded.kind is Block && observation matches Observation::Block {
            hash: None,
            ..
        } {
            PathState::Missing
        } else if spec_observation_matches_recorded(recorded, observation) {
            PathState::Clean
        } else {
            PathState::Drifted
        },
    }
}

/// Whether the observed node is exactly the desired entry.
pub open spec fn spec_observation_matches_desired(
    entry: EntryView,
    recorded: RecordView,
    observation: Observation,
) -> bool {
    match (entry, observation) {
        (
            EntryView::File { contents, executable },
            Observation::File { hash, executable: on_disk },
        ) => executable == on_disk && hash@ == spec_sha256_hex(contents),
        (EntryView::Symlink { target }, Observation::Symlink { hash, .. }) => hash@
            == spec_sha256_hex(vstd::utf8::encode_utf8(target)),
        (EntryView::Block { body, .. }, observation) => entry.kind() == recorded.kind
            && spec_identified_region(observation) == Some(spec_sha256_hex(body)),
        _ => false,
    }
}

/// Whether the desired entry is exactly the recorded one.
pub open spec fn spec_desired_matches_recorded(entry: EntryView, recorded: RecordView) -> bool {
    &&& entry.kind() == recorded.kind
    &&& spec_desired_executable(entry) == recorded.executable
    &&& spec_desired_hash(entry) == recorded.hash
}

/// The observed node's signature, where it has one.
pub open spec fn spec_observed_signature(recorded: RecordView, observation: Observation) -> Option<
    SignatureView,
> {
    if recorded.kind is Block {
        match spec_identified_region(observation) {
            Some(hash) => Some(SignatureView { kind: recorded.kind, hash, executable: false }),
            None => None,
        }
    } else {
        match observation {
            Observation::File { hash, executable } => Some(
                SignatureView { kind: KindView::File, hash: hash@, executable },
            ),
            Observation::Symlink { hash, .. } => Some(
                SignatureView { kind: KindView::Symlink, hash: hash@, executable: false },
            ),
            _ => None,
        }
    }
}

/// Why a clean path whose entry changed is overwritten.
pub open spec fn spec_clean_overwrite_reason(entry: EntryView, recorded: RecordView) -> OverwriteReason {
    if entry.kind() == recorded.kind && spec_desired_hash(entry) == recorded.hash
        && spec_desired_executable(entry) != recorded.executable {
        OverwriteReason::ExecutableChanged
    } else {
        OverwriteReason::ContentChanged
    }
}

/// A drifted path under `policy`: refused, or lifted with the drifted node's
/// signature as the expectation. A node without a signature is refused under
/// either policy.
pub open spec fn spec_drift_lift(
    recorded: RecordView,
    observation: Observation,
    policy: DriftPolicy,
) -> Option<SignatureView> {
    match policy {
        DriftPolicy::Refuse => None,
        DriftPolicy::Overwrite => spec_observed_signature(recorded, observation),
    }
}

/// Whether an author's side is ready for an appended region to follow it.
pub open spec fn spec_author_ready(observation: Option<Observation>) -> bool {
    match observation {
        Some(Observation::Block { hash: None, desired: Some(desired), .. }) =>
            desired.author_newline_terminated,
        Some(Observation::Block { newline_terminated, .. }) => newline_terminated,
        _ => true,
    }
}

/// The refusals a desired block earns before its classification is
/// consulted: its own rules, an author's side an appended region cannot
/// follow, the desired marker already in the author's text, and a region
/// under the desired marker carrying other bytes.
pub open spec fn spec_block_refusal(
    entry: EntryView,
    recorded_is_block: bool,
    observation: Option<Observation>,
) -> Option<RefusalView> {
    match entry {
        EntryView::Block { body, marker, placement } => {
            let fault = spec_entry_fault(vstd::utf8::encode_utf8(marker), placement, body);
            if fault is Some {
                Some(RefusalView::Block { fault: fault->0 })
            } else if placement == Placement::Append && !spec_author_ready(observation) {
                Some(RefusalView::Block { fault: BlockFault::ContainerNotNewlineTerminated })
            } else {
                match observation {
                    Some(Observation::Block { hash, occurrences, desired: Some(desired), .. }) => {
                        if hash is Some {
                            if occurrences == 1 && desired.occurrences > 0 {
                                Some(RefusalView::Block { fault: BlockFault::MarkerInAuthorText })
                            } else {
                                None
                            }
                        } else {
                            let adopted = desired.occurrences == 1 && (desired.hash matches Some(h)
                                && h@ == spec_sha256_hex(body));
                            if desired.occurrences > 0 && !adopted {
                                Some(
                                    if recorded_is_block {
                                        RefusalView::Drift
                                    } else {
                                        RefusalView::Foreign
                                    },
                                )
                            } else {
                                None
                            }
                        }
                    },
                    _ => None,
                }
            }
        },
        _ => None,
    }
}

/// The action for an orphan: a path recorded under this owner alone and
/// absent from the desired tree.
pub open spec fn spec_orphan_action(
    recorded: RecordView,
    observation: Option<Observation>,
    state: PathState,
    policy: DriftPolicy,
) -> ActionView {
    match state {
        PathState::Clean => ActionView::Remove { expected: Some(spec_recorded_signature(recorded)) },
        PathState::Drifted => match spec_drift_lift(recorded, observation->0, policy) {
            Some(drifted) => ActionView::Remove { expected: Some(drifted) },
            None => ActionView::Refuse { refusal: RefusalView::Drift },
        },
        _ => ActionView::Remove { expected: None },
    }
}

/// Every owner but `owner`, in order.
pub open spec fn others_than(owners: Seq<Seq<char>>, owner: Seq<char>) -> Seq<Seq<char>>
    decreases owners.len(),
{
    if owners.len() == 0 {
        Seq::empty()
    } else {
        let rest = others_than(owners.drop_last(), owner);
        if owners.last() == owner {
            rest
        } else {
            rest.push(owners.last())
        }
    }
}

/// A path other owners hold is never changed under them: where the entry
/// passes the block rules, the recorded kind is the entry's, and the entry
/// differs from what is recorded, the action refuses, naming exactly the
/// other owners.
pub proof fn lemma_shared_paths_change_only_with_their_owners(
    owner: Seq<char>,
    entry: EntryView,
    state: PathState,
    recorded: RecordView,
    observation: Option<Observation>,
    policy: DriftPolicy,
)
    requires
        spec_block_refusal(entry, recorded.kind is Block, observation) is None,
        state != PathState::Foreign,
        (recorded.kind is Block) == (entry is Block),
        others_than(recorded.owners, owner).len() > 0,
        !spec_desired_matches_recorded(entry, recorded),
    ensures
        spec_desired_action(owner, entry, Some(state), Some(recorded), observation, policy)
            == (ActionView::Refuse {
            refusal: RefusalView::OwnerConflict { owners: others_than(recorded.owners, owner) },
        }),
{
}

/// The owners left after one leaves are distinct where they were, and each
/// was there before.
pub proof fn lemma_others_than_distinct(owners: Seq<Seq<char>>, owner: Seq<char>)
    requires
        owners.no_duplicates(),
    ensures
        others_than(owners, owner).no_duplicates(),
        forall|x: Seq<char>| others_than(owners, owner).contains(x) ==> owners.contains(x),
    decreases owners.len(),
{
    if owners.len() > 0 {
        let rest = owners.drop_last();
        assert forall|a: int, b: int| 0 <= a < rest.len() && 0 <= b < rest.len() && a != b implies rest[a] != rest[b] by {
            assert(rest[a] == owners[a] && rest[b] == owners[b]);
        }
        lemma_others_than_distinct(rest, owner);
        let r = others_than(rest, owner);
        assert forall|x: Seq<char>| r.contains(x) implies owners.contains(x) by {
            assert(rest.contains(x));
            let k = choose|k: int| 0 <= k < rest.len() && rest[k] == x;
            assert(owners[k] == x);
        }
        if owners.last() != owner {
            let w = r.push(owners.last());
            assert(!r.contains(owners.last())) by {
                if r.contains(owners.last()) {
                    assert(rest.contains(owners.last()));
                    let k = choose|k: int| 0 <= k < rest.len() && rest[k] == owners.last();
                    assert(owners[k] == owners[owners.len() - 1]);
                }
            }
            assert forall|a: int, b: int| 0 <= a < w.len() && 0 <= b < w.len() && a != b implies w[a] != w[b] by {
                if a == r.len() {
                    assert(w[b] == r[b]);
                } else if b == r.len() {
                    assert(w[a] == r[a]);
                } else {
                    assert(w[a] == r[a] && w[b] == r[b]);
                }
            }
            assert forall|x: Seq<char>| w.contains(x) implies owners.contains(x) by {
                let k = choose|k: int| 0 <= k < w.len() && w[k] == x;
                if k == r.len() {
                    assert(owners[owners.len() - 1] == x);
                } else {
                    assert(r[k] == x);
                    assert(r.contains(x));
                    assert(rest.contains(x));
                    let j = choose|j: int| 0 <= j < rest.len() && rest[j] == x;
                    assert(owners[j] == x);
                }
            }
        }
    }
}

/// The action for a path the desired tree names, given its classification
/// (`None` when the path is neither recorded nor on disk).
pub open spec fn spec_desired_action(
    owner: Seq<char>,
    entry: EntryView,
    state: Option<PathState>,
    recorded: Option<RecordView>,
    observation: Option<Observation>,
    policy: DriftPolicy,
) -> ActionView {
    let is_block = entry is Block;
    let recorded_is_block = recorded matches Some(r) && r.kind is Block;
    if let Some(refusal) = spec_block_refusal(entry, recorded_is_block, observation) {
        ActionView::Refuse { refusal }
    } else if state is None {
        if is_block {
            ActionView::Refuse { refusal: RefusalView::Block { fault: BlockFault::ContainerMissing } }
        } else {
            ActionView::Write { entry }
        }
    } else if state == Some(PathState::Foreign) {
        if is_block && (observation matches Some(Observation::File { .. }) || observation matches Some(
            Observation::Block { .. },
        )) {
            ActionView::Write { entry }
        } else {
            ActionView::Refuse { refusal: RefusalView::Foreign }
        }
    } else {
        let r = recorded->0;
        let others = others_than(r.owners, owner);
        if (r.kind is Block) != is_block {
            ActionView::Refuse { refusal: RefusalView::Block { fault: BlockFault::KindChange } }
        } else if others.len() > 0 && !spec_desired_matches_recorded(entry, r) {
            ActionView::Refuse { refusal: RefusalView::OwnerConflict { owners: others } }
        } else {
            match state->0 {
                PathState::Missing => if is_block && !(observation matches Some(
                    Observation::Block { .. },
                )) {
                    ActionView::Refuse {
                        refusal: RefusalView::Block { fault: BlockFault::ContainerMissing },
                    }
                } else {
                    ActionView::Write { entry }
                },
                PathState::Clean => if spec_observation_matches_desired(entry, r, observation->0) {
                    ActionView::Skip { entry, expected: spec_desired_signature(entry) }
                } else {
                    ActionView::Overwrite {
                        entry,
                        expected: spec_recorded_signature(r),
                        reason: spec_clean_overwrite_reason(entry, r),
                    }
                },
                _ => if spec_observation_matches_desired(entry, r, observation->0) {
                    ActionView::Skip { entry, expected: spec_desired_signature(entry) }
                } else {
                    match spec_drift_lift(r, observation->0, policy) {
                        Some(drifted) => ActionView::Overwrite {
                            entry,
                            expected: drifted,
                            reason: OverwriteReason::ForcedDrift,
                        },
                        None => ActionView::Refuse { refusal: RefusalView::Drift },
                    }
                },
            }
        }
    }
}

// ---- the rules, computed ----

/// The hash a manifest records for `entry`.
pub fn desired_hash(entry: &Entry) -> (hash: String)
    ensures
        hash@ == spec_desired_hash(entry@),
{
    match entry {
        Entry::File { contents, .. } => sha256_hex(contents.as_slice()),
        Entry::Symlink { target } => sha256_hex(target.as_str().as_bytes()),
        Entry::Block { body, .. } => sha256_hex(body.as_slice()),
    }
}

/// The executable bit a manifest records for `entry`.
pub fn desired_executable(entry: &Entry) -> (executable: bool)
    ensures
        executable == spec_desired_executable(entry@),
{
    match entry {
        Entry::File { executable, .. } => *executable,
        Entry::Symlink { .. } | Entry::Block { .. } => false,
    }
}

/// The signature the desired entry has once written.
pub fn desired_signature(entry: &Entry) -> (signature: NodeSignature)
    ensures
        signature@ == spec_desired_signature(entry@),
{
    NodeSignature {
        kind: entry.kind(),
        hash: desired_hash(entry),
        executable: desired_executable(entry),
    }
}

/// The signature the manifest records at a path.
pub fn recorded_signature(recorded: &ManifestEntry) -> (signature: NodeSignature)
    ensures
        signature@ == spec_recorded_signature(recorded@),
{
    NodeSignature {
        kind: recorded.kind.duplicate(),
        hash: recorded.hash.clone(),
        executable: recorded.executable,
    }
}

/// The hash of the region an observation identifies.
pub fn identified_region(observation: &Observation) -> (hash: Option<&String>)
    ensures
        match hash {
            Some(h) => spec_identified_region(*observation) == Some(h@),
            None => spec_identified_region(*observation) is None,
        },
{
    match observation {
        Observation::Block { hash: Some(hash), occurrences, .. } => if *occurrences == 1 {
            Some(hash)
        } else {
            None
        },
        _ => None,
    }
}

/// Whether the observed node is exactly the recorded entry — kind and hash,
/// plus the executable bit for files; for a block, the region's body alone.
pub fn observation_matches_recorded(recorded: &ManifestEntry, observation: &Observation) -> (matches: bool)
    ensures
        matches == spec_observation_matches_recorded(recorded@, *observation),
{
    match (&recorded.kind, observation) {
        (EntryKind::File, Observation::File { hash, executable }) => *hash == recorded.hash
            && *executable == recorded.executable,
        (EntryKind::Symlink, Observation::Symlink { hash, .. }) => *hash == recorded.hash,
        (EntryKind::Block { .. }, observation) => match identified_region(observation) {
            Some(hash) => *hash == recorded.hash,
            None => false,
        },
        _ => false,
    }
}

/// The state of a recorded path, given what stands at the location a walk to
/// it comes out at. `None` is a location the walk never reached, which reads
/// exactly as [`Observation::Absent`] does.
pub fn recorded_state(recorded: &ManifestEntry, observation: Option<&Observation>) -> (state: PathState)
    ensures
        state == spec_recorded_state(
            recorded@,
            match observation {
                Some(o) => Some(*o),
                None => None,
            },
        ),
{
    match observation {
        None | Some(Observation::Absent) => PathState::Missing,
        Some(Observation::Block { hash: None, .. }) if recorded.kind.is_block() => PathState::Missing,
        Some(observation) => {
            if observation_matches_recorded(recorded, observation) {
                PathState::Clean
            } else {
                PathState::Drifted
            }
        },
    }
}

/// Whether the observed node is exactly the desired entry. `recorded` is the
/// entry the observation was taken against; a desired block whose marker or
/// placement differs from it never matches.
pub fn observation_matches_desired(entry: &Entry, recorded: &ManifestEntry, observation: &Observation) -> (matches: bool)
    ensures
        matches == spec_observation_matches_desired(entry@, recorded@, *observation),
{
    match (entry, observation) {
        (Entry::File { contents, executable }, Observation::File { hash, executable: on_disk }) => {
            *executable == *on_disk && *hash == sha256_hex(contents.as_slice())
        },
        (Entry::Symlink { target }, Observation::Symlink { hash, .. }) => *hash == sha256_hex(
            target.as_str().as_bytes(),
        ),
        (Entry::Block { body, .. }, observation) => {
            if !entry.kind().same_as(&recorded.kind) {
                return false;
            }
            match identified_region(observation) {
                Some(hash) => *hash == sha256_hex(body.as_slice()),
                None => false,
            }
        },
        _ => false,
    }
}

/// Whether the desired entry is exactly the recorded one — kind, hash, and
/// executable bit.
pub fn desired_matches_recorded(entry: &Entry, recorded: &ManifestEntry) -> (matches: bool)
    ensures
        matches == spec_desired_matches_recorded(entry@, recorded@),
{
    entry.kind().same_as(&recorded.kind) && desired_executable(entry) == recorded.executable
        && desired_hash(entry) == recorded.hash
}

/// The observed node's signature, where it has one: files, symlinks, and a
/// region the container still identifies. `recorded` says which node the
/// observation is about.
pub fn observed_signature(recorded: &ManifestEntry, observation: &Observation) -> (signature: Option<NodeSignature>)
    ensures
        match signature {
            Some(s) => spec_observed_signature(recorded@, *observation) == Some(s@),
            None => spec_observed_signature(recorded@, *observation) is None,
        },
{
    if recorded.kind.is_block() {
        return match identified_region(observation) {
            Some(hash) => Some(
                NodeSignature {
                    kind: recorded.kind.duplicate(),
                    hash: hash.clone(),
                    executable: false,
                },
            ),
            None => None,
        };
    }
    match observation {
        Observation::File { hash, executable } => Some(
            NodeSignature { kind: EntryKind::File, hash: hash.clone(), executable: *executable },
        ),
        Observation::Symlink { hash, .. } => Some(
            NodeSignature { kind: EntryKind::Symlink, hash: hash.clone(), executable: false },
        ),
        Observation::Block { .. } | Observation::Absent | Observation::Directory
        | Observation::Other => None,
    }
}

/// Why a clean path whose entry changed is overwritten: its executable bit
/// alone, or its content.
pub fn clean_overwrite_reason(entry: &Entry, recorded: &ManifestEntry) -> (reason: OverwriteReason)
    ensures
        reason == spec_clean_overwrite_reason(entry@, recorded@),
{
    if entry.kind().same_as(&recorded.kind) && desired_hash(entry) == recorded.hash
        && desired_executable(entry) != recorded.executable {
        OverwriteReason::ExecutableChanged
    } else {
        OverwriteReason::ContentChanged
    }
}

/// Resolves a drifted path under `policy`: the drifted node's signature for
/// the action that lifts the drift, or the refusal. A node without a
/// signature is refused under either policy.
pub fn lift_or_refuse_drift(recorded: &ManifestEntry, observation: &Observation, policy: DriftPolicy) -> (lifted: Result<NodeSignature, Refusal>)
    ensures
        match lifted {
            Ok(s) => spec_drift_lift(recorded@, *observation, policy) == Some(s@),
            Err(refusal) => spec_drift_lift(recorded@, *observation, policy) is None && refusal
                == Refusal::Drift,
        },
{
    match policy {
        DriftPolicy::Refuse => Err(Refusal::Drift),
        DriftPolicy::Overwrite => match observed_signature(recorded, observation) {
            Some(drifted) => Ok(drifted),
            None => Err(Refusal::Drift),
        },
    }
}

/// An action declining to touch the path.
pub fn refuse(refusal: Refusal) -> (action: Action)
    ensures
        action == (Action::Refuse { refusal }),
{
    Action::Refuse { refusal }
}

/// The skip for a path whose disk node already equals the desired `entry`,
/// carrying the desired signature for apply to re-check and record.
pub fn skip(entry: &Entry) -> (action: Action)
    ensures
        action@ == (ActionView::Skip { entry: entry@, expected: spec_desired_signature(entry@) }),
{
    Action::Skip { entry: entry.duplicate(), expected: desired_signature(entry) }
}

/// The refusals a desired [`Block`](Entry::Block) earns before its
/// classification is consulted.
pub fn block_refusal(entry: &Entry, recorded_is_block: bool, observation: Option<&Observation>) -> (refusal: Option<Refusal>)
    ensures
        match refusal {
            Some(r) => spec_block_refusal(
                entry@,
                recorded_is_block,
                match observation {
                    Some(o) => Some(*o),
                    None => None,
                },
            ) == Some(r@),
            None => spec_block_refusal(
                entry@,
                recorded_is_block,
                match observation {
                    Some(o) => Some(*o),
                    None => None,
                },
            ) is None,
        },
{
    let (body, marker, placement) = match entry {
        Entry::Block { body, marker, placement } => (body, marker, placement),
        _ => return None,
    };
    let marker_text = marker.as_str();
    assert(marker_text.spec_bytes() == vstd::utf8::encode_utf8(marker@));
    if let Some(fault) = entry_fault(marker_text, *placement, body.as_slice()) {
        return Some(Refusal::Block { fault });
    }
    let author_ready = match observation {
        Some(Observation::Block { hash: None, desired: Some(desired), .. }) =>
            desired.author_newline_terminated,
        Some(Observation::Block { newline_terminated, .. }) => *newline_terminated,
        _ => true,
    };
    let appended = match placement {
        Placement::Append => true,
        Placement::Prepend => false,
    };
    if appended && !author_ready {
        return Some(Refusal::Block { fault: BlockFault::ContainerNotNewlineTerminated });
    }
    let (hash, occurrences, desired) = match observation {
        Some(Observation::Block { hash, occurrences, desired: Some(desired), .. }) => (
            hash,
            occurrences,
            desired,
        ),
        _ => return None,
    };
    if hash.is_some() {
        return if *occurrences == 1 && desired.occurrences > 0 {
            Some(Refusal::Block { fault: BlockFault::MarkerInAuthorText })
        } else {
            None
        };
    }
    let adopted = desired.occurrences == 1 && match &desired.hash {
        Some(h) => *h == sha256_hex(body.as_slice()),
        None => false,
    };
    if desired.occurrences > 0 && !adopted {
        return Some(
            if recorded_is_block {
                Refusal::Drift
            } else {
                Refusal::Foreign
            },
        );
    }
    None
}

/// The action for an orphan: a path recorded under this owner alone and
/// absent from the desired tree.
pub fn orphan_action(recorded: &ManifestEntry, observation: Option<&Observation>, state: PathState, policy: DriftPolicy) -> (action: Action)
    requires
        state != PathState::Foreign,
        state == PathState::Drifted ==> observation is Some,
    ensures
        action@ == spec_orphan_action(
            recorded@,
            match observation {
                Some(o) => Some(*o),
                None => None,
            },
            state,
            policy,
        ),
{
    match state {
        PathState::Clean => Action::Remove { expected: Some(recorded_signature(recorded)) },
        PathState::Missing => Action::Remove { expected: None },
        PathState::Drifted => {
            let observation = observation.unwrap();
            match lift_or_refuse_drift(recorded, observation, policy) {
                Ok(drifted) => Action::Remove { expected: Some(drifted) },
                Err(refusal) => refuse(refusal),
            }
        },
        PathState::Foreign => refuse(Refusal::Foreign),
    }
}

/// Every owner in `owners` but `owner`, in order.
pub fn other_owners(owners: &Vec<String>, owner: &str) -> (others: Vec<String>)
    ensures
        others.deep_view() == others_than(owners.deep_view(), owner@),
{
    let mut others: Vec<String> = Vec::new();
    let mut i: usize = 0;
    while i < owners.len()
        invariant
            i <= owners@.len(),
            others.deep_view() == others_than(owners.deep_view().subrange(0, i as int), owner@),
        decreases owners.len() - i,
    {
        let ghost before = others.deep_view();
        if !text_eq(owners[i].as_str(), owner) {
            others.push(owners[i].clone());
        }
        proof {
            let prefix = owners.deep_view().subrange(0, i + 1);
            assert(prefix.drop_last() =~= owners.deep_view().subrange(0, i as int));
            assert(prefix.last() == owners@[i as int]@);
        }
        i = i + 1;
        assert(others.deep_view() =~= others_than(owners.deep_view().subrange(0, i as int), owner@));
    }
    assert(owners.deep_view().subrange(0, owners@.len() as int) =~= owners.deep_view());
    others
}

/// The action for a path the desired tree names, given its classification
/// (`None` when the path is neither recorded nor on disk).
pub fn desired_action(owner: &str, entry: &Entry, state: Option<PathState>, recorded: Option<&ManifestEntry>, observation: Option<&Observation>, policy: DriftPolicy) -> (action: Action)
    requires
        state matches Some(s) && s != PathState::Foreign ==> recorded is Some,
        state matches Some(s) && (s == PathState::Clean || s == PathState::Drifted) ==> observation is Some,
    ensures
        action@ == spec_desired_action(
            owner@,
            entry@,
            state,
            match recorded {
                Some(r) => Some(r@),
                None => None,
            },
            match observation {
                Some(o) => Some(*o),
                None => None,
            },
            policy,
        ),
{
    let recorded_is_block = match recorded {
        Some(r) => r.kind.is_block(),
        None => false,
    };
    if let Some(refusal) = block_refusal(entry, recorded_is_block, observation) {
        return refuse(refusal);
    }
    let is_block = match entry {
        Entry::Block { .. } => true,
        _ => false,
    };
    let state = match state {
        None => {
            return if is_block {
                refuse(Refusal::Block { fault: BlockFault::ContainerMissing })
            } else {
                Action::Write { entry: entry.duplicate() }
            };
        },
        Some(state) => state,
    };
    if let PathState::Foreign = state {
        // A block owns the region, not the container, so an unrecorded
        // regular file plans a write.
        let container = match observation {
            Some(Observation::File { .. }) | Some(Observation::Block { .. }) => true,
            _ => false,
        };
        return if is_block && container {
            Action::Write { entry: entry.duplicate() }
        } else {
            refuse(Refusal::Foreign)
        };
    }
    let recorded = recorded.unwrap();
    if recorded.kind.is_block() != is_block {
        return refuse(Refusal::Block { fault: BlockFault::KindChange });
    }
    let others = other_owners(&recorded.owners, owner);
    if others.len() > 0 && !desired_matches_recorded(entry, recorded) {
        return refuse(Refusal::OwnerConflict { owners: others });
    }
    match state {
        PathState::Missing => {
            let container = match observation {
                Some(Observation::Block { .. }) => true,
                _ => false,
            };
            if is_block && !container {
                refuse(Refusal::Block { fault: BlockFault::ContainerMissing })
            } else {
                Action::Write { entry: entry.duplicate() }
            }
        },
        PathState::Clean => {
            let observation = observation.unwrap();
            if observation_matches_desired(entry, recorded, observation) {
                skip(entry)
            } else {
                Action::Overwrite {
                    entry: entry.duplicate(),
                    expected: recorded_signature(recorded),
                    reason: clean_overwrite_reason(entry, recorded),
                }
            }
        },
        _ => {
            let observation = observation.unwrap();
            if observation_matches_desired(entry, recorded, observation) {
                skip(entry)
            } else {
                match lift_or_refuse_drift(recorded, observation, policy) {
                    Ok(drifted) => Action::Overwrite {
                        entry: entry.duplicate(),
                        expected: drifted,
                        reason: OverwriteReason::ForcedDrift,
                    },
                    Err(refusal) => refuse(refusal),
                }
            }
        },
    }
}


// ---- laws ----

/// The observation a destination walk takes of the node `entry` wrote: a
/// file by its contents' hash and its bit, a link by its target's hash, a
/// container by its region's hash under one marker line, ready to carry an
/// appended region.
pub open spec fn observes_written(entry: EntryView, observation: Observation) -> bool {
    match entry {
        EntryView::File { contents, executable } => observation matches Observation::File {
            hash,
            executable: on_disk,
        } && hash@ == spec_sha256_hex(contents) && on_disk == executable,
        EntryView::Symlink { target } => observation matches Observation::Symlink { hash, .. }
            && hash@ == spec_sha256_hex(vstd::utf8::encode_utf8(target)),
        EntryView::Block { body, .. } => observation matches Observation::Block {
            hash: Some(hash),
            occurrences,
            newline_terminated,
            desired: None,
        } && hash@ == spec_sha256_hex(body) && occurrences == 1 && newline_terminated,
    }
}

/// The record a write of `entry` leaves under `owners`.
pub open spec fn written_record(entry: EntryView, owners: Seq<Seq<char>>) -> RecordView {
    RecordView {
        kind: entry.kind(),
        hash: spec_desired_hash(entry),
        executable: spec_desired_executable(entry),
        owners,
    }
}

/// Re-running the same write converges: a path recorded as holding `entry`
/// under an owner set that includes `owner`, whose disk node is the one
/// `entry` wrote, classifies clean, and planning `entry` there again skips
/// it — under either drift policy — expecting exactly the signature `entry`
/// has. Block entries are taken as the block rules admit them.
pub proof fn lemma_rewriting_what_was_written_skips(
    owner: Seq<char>,
    entry: EntryView,
    owners: Seq<Seq<char>>,
    observation: Observation,
    policy: DriftPolicy,
)
    requires
        owners.contains(owner),
        observes_written(entry, observation),
        entry matches EntryView::Block { body, marker, placement } ==> spec_entry_fault(
            vstd::utf8::encode_utf8(marker),
            placement,
            body,
        ) is None,
    ensures
        spec_recorded_state(written_record(entry, owners), Some(observation)) == PathState::Clean,
        spec_desired_action(
            owner,
            entry,
            Some(PathState::Clean),
            Some(written_record(entry, owners)),
            Some(observation),
            policy,
        ) == (ActionView::Skip { entry, expected: spec_desired_signature(entry) }),
{
    let r = written_record(entry, owners);
    assert(spec_desired_matches_recorded(entry, r));
    assert(spec_observation_matches_desired(entry, r, observation));
}

/// A drifted path is never written over while drift is refused: planning an
/// entry there either finds the disk already holds it and skips, or refuses;
/// an orphan there is refused, never removed.
pub proof fn lemma_refused_drift_is_left_alone(
    owner: Seq<char>,
    entry: EntryView,
    recorded: RecordView,
    observation: Observation,
)
    ensures
        ({
            let planned = spec_desired_action(
                owner,
                entry,
                Some(PathState::Drifted),
                Some(recorded),
                Some(observation),
                DriftPolicy::Refuse,
            );
            planned is Skip || planned is Refuse
        }),
        spec_orphan_action(recorded, Some(observation), PathState::Drifted, DriftPolicy::Refuse)
            == (ActionView::Refuse { refusal: RefusalView::Drift }),
{
}

/// The projection refuses to touch what it did not write: a foreign path is
/// refused, except that a block puts its region into an unrecorded regular
/// file — it owns the region, never the container.
pub proof fn lemma_foreign_paths_are_refused(
    owner: Seq<char>,
    entry: EntryView,
    recorded: Option<RecordView>,
    observation: Option<Observation>,
    policy: DriftPolicy,
)
    ensures
        ({
            let planned = spec_desired_action(
                owner,
                entry,
                Some(PathState::Foreign),
                recorded,
                observation,
                policy,
            );
            planned is Refuse || (planned is Write && entry is Block)
        }),
{
}

} // verus!
