//! The write stage's rules: the whole-plan check apply runs before touching
//! anything, what each action does to the manifest, and what a block action
//! writes into a container given the bytes one read of it returned.

use vstd::prelude::*;

use crate::block::{
    block_kind, entry_fault, is_region, line_end_after, locate, newline_terminated,
    occurrence_count, occurrence_total, spec_entry_fault, spec_newline_terminated, spec_splice,
    spec_strip, splice, strip,
};
use crate::containment::{
    contained_normalize, is_pathname, join_pieces, join_slash, slash_pieces, split_slash,
    spec_contained_normalize, chars_of,
};
use crate::decide::{
    spec_desired_executable, spec_desired_hash, Action, ActionView, ExternalTargetPolicy,
    NodeSignature, SignatureView,
};
use crate::entry::{Entry, EntryKind, EntryView, KindView, Placement};
use crate::error::{Error, MAX_WALK_DEPTH};
use crate::hash::{sha256_hex, spec_sha256_hex};
use crate::manifest::{copy_strings, owners_with, Manifest, ManifestEntry, RecordView};
use crate::refusal::{BlockFault, Origin, OriginView, Refusal, RefusalView, Refused};
use crate::text::text_eq;
use vstd::string::StringSliceAdditionalSpecFns;

verus! {

/// A decided plan: one action per path, the owner it acts for, where its
/// desired tree came from, and whether its links may point outside.
#[derive(Debug, Clone, PartialEq, Eq)]
pub struct Plan {
    pub owner: String,
    /// One action per path, in the order apply runs them.
    pub actions: Vec<(String, Action)>,
    /// Where the desired tree came from, which refusals of its own values
    /// name.
    pub origin: Origin,
    pub external_targets: ExternalTargetPolicy,
}

impl Plan {
    /// One action per path: no path is keyed twice.
    pub open spec fn wf(&self) -> bool {
        forall|i: int, j: int|
            0 <= i < self.actions@.len() && 0 <= j < self.actions@.len() && i != j
                ==> #[trigger] self.actions@[i].0@ != #[trigger] self.actions@[j].0@
    }
}

/// Refuses a plan keying one path twice: the two actions claim one location,
/// a tree conflict naming that path; a plan with one action per path passes.
pub fn check_plan_keys(plan: &Plan) -> (checked: Result<(), Error>)
    ensures
        checked is Ok <==> plan.wf(),
        checked matches Err(e) ==> (e matches Error::Refused(Refused::TreeConflict { paths, origin })
            && paths@.len() == 1 && origin@ == plan.origin@ && exists|i: int, j: int|
            0 <= i < j < plan.actions@.len() && plan.actions@[i].0@ == plan.actions@[j].0@
                && paths@[0]@ == plan.actions@[j].0@),
{
    let mut j: usize = 0;
    while j < plan.actions.len()
        invariant
            j <= plan.actions@.len(),
            forall|a: int, b: int|
                0 <= a < j && 0 <= b < j && a != b ==> #[trigger] plan.actions@[a].0@
                    != #[trigger] plan.actions@[b].0@,
        decreases plan.actions.len() - j,
    {
        let mut i: usize = 0;
        while i < j
            invariant
                i <= j < plan.actions@.len(),
                forall|a: int| 0 <= a < i ==> plan.actions@[a].0@ != plan.actions@[j as int].0@,
            decreases j - i,
        {
            if text_eq(plan.actions[i].0.as_str(), plan.actions[j].0.as_str()) {
                let paths = vec![plan.actions[j].0.clone()];
                return Err(Error::Refused(Refused::TreeConflict { paths, origin: plan.origin.duplicate() }));
            }
            i = i + 1;
        }
        j = j + 1;
    }
    Ok(())
}

/// The actions of a plan as values.
pub open spec fn actions_view(actions: Seq<(String, Action)>) -> Seq<(Seq<char>, ActionView)> {
    Seq::new(actions.len(), |i: int| (actions[i].0@, actions[i].1@))
}

/// A key is one the gateway accepts, already in the form it normalizes to.
pub open spec fn is_normalized_key(path: Seq<char>) -> bool {
    spec_contained_normalize(path) == Some(path)
}

/// What an action's expected signature earns from the record at its path: the
/// one distinction a path never crosses, and — where the record is a block —
/// the region that signature names.
pub open spec fn spec_signature_block_fault(recorded: Option<KindView>, expected: KindView) -> Option<
    BlockFault,
> {
    let record_is_block = recorded matches Some(k) && k is Block;
    if record_is_block != expected is Block {
        Some(BlockFault::KindChange)
    } else if record_is_block && recorded != Some(expected) {
        Some(BlockFault::SignatureNotRecorded)
    } else {
        None
    }
}

/// The refusal a written block entry earns from its own fields.
pub open spec fn spec_entry_block_fault(entry: EntryView) -> Option<BlockFault> {
    match entry {
        EntryView::Block { body, marker, placement } => spec_entry_fault(
            vstd::utf8::encode_utf8(marker),
            placement,
            body,
        ),
        _ => None,
    }
}

/// The entry an action puts on disk, if any.
pub open spec fn written_entry(action: ActionView) -> Option<EntryView> {
    match action {
        ActionView::Write { entry } => Some(entry),
        ActionView::Overwrite { entry, .. } => Some(entry),
        ActionView::OverwriteDirectory { entry } => Some(entry),
        _ => None,
    }
}

/// The target of a link an action puts on disk, if it puts one.
pub open spec fn written_link_target(action: ActionView) -> Option<Seq<char>> {
    match written_entry(action) {
        Some(EntryView::Symlink { target }) => Some(target),
        _ => None,
    }
}

/// A pathname at all: not empty, and free of NUL.
pub open spec fn spec_is_pathname(target: Seq<char>) -> bool {
    target.len() > 0 && !target.contains('\0')
}

/// The kind recorded at a path, if any.
pub open spec fn recorded_kind(recorded: Option<RecordView>) -> Option<KindView> {
    match recorded {
        Some(r) => Some(r.kind),
        None => None,
    }
}

/// The block rule an admitted action breaks, where the last rule checked
/// wins: for an overwrite, its signature's rule, then the region-or-node
/// distinction, then the entry's own rules.
pub open spec fn spec_admitted_fault(recorded: Option<RecordView>, action: ActionView) -> Option<
    BlockFault,
> {
    let kind = recorded_kind(recorded);
    let record_is_block = kind matches Some(k) && k is Block;
    match action {
        ActionView::Write { entry } => if recorded is Some && record_is_block != entry.kind() is Block {
            Some(BlockFault::KindChange)
        } else {
            spec_entry_block_fault(entry)
        },
        ActionView::OverwriteDirectory { entry } => if record_is_block != entry.kind() is Block {
            Some(BlockFault::KindChange)
        } else {
            spec_entry_block_fault(entry)
        },
        ActionView::Overwrite { entry, expected, .. } => if spec_signature_block_fault(
            kind,
            expected.kind,
        ) is Some {
            spec_signature_block_fault(kind, expected.kind)
        } else if record_is_block != entry.kind() is Block {
            Some(BlockFault::KindChange)
        } else {
            spec_entry_block_fault(entry)
        },
        ActionView::Skip { expected, .. } => spec_signature_block_fault(kind, expected.kind),
        ActionView::Remove { expected: Some(expected) } => spec_signature_block_fault(
            kind,
            expected.kind,
        ),
        _ => None,
    }
}

/// Where one action lands in the whole-plan check.
pub enum Contribution {
    Containment { through: Option<Seq<char>> },
    TreeConflict,
    Foreign,
    Drift,
    OwnerConflict { owners: Seq<Seq<char>> },
    ExternalTarget { target: Seq<char> },
    InvalidTarget { target: Seq<char> },
    RefusedBlock { fault: BlockFault },
    InTheWay,
    Admitted { fault: Option<BlockFault>, deep: bool },
}

/// Whether acting at `path` puts a node more than [`MAX_WALK_DEPTH`]
/// directories below the destination.
pub open spec fn is_too_deep(path: Seq<char>) -> bool {
    split_slash(path).len() > MAX_WALK_DEPTH + 1
}

/// The directory a level past the limit on the way to `path`.
pub open spec fn depth_offender(path: Seq<char>) -> Seq<char> {
    join_slash(split_slash(path).take(MAX_WALK_DEPTH + 1))
}

/// How the whole-plan check judges one action: a planned refusal goes to its
/// own kind; an action at a key the gateway would rewrite is containment; an
/// action other than a write or a no-op at a path the manifest does not
/// record is foreign; a link written with a target that is not a pathname is
/// invalid; everything else is admitted with the block rule it breaks and
/// whether it writes or removes too deep.
pub open spec fn spec_contribution(manifest: Manifest, path: Seq<char>, action: ActionView) -> Contribution {
    match action {
        ActionView::Refuse { refusal } => match refusal {
            RefusalView::Containment { through } => Contribution::Containment { through },
            RefusalView::TreeConflict { .. } => Contribution::TreeConflict,
            RefusalView::Foreign => Contribution::Foreign,
            RefusalView::Drift => Contribution::Drift,
            RefusalView::OwnerConflict { owners } => Contribution::OwnerConflict { owners },
            RefusalView::ExternalTarget { target } => Contribution::ExternalTarget { target },
            RefusalView::InvalidTarget { target } => Contribution::InvalidTarget { target },
            RefusalView::Block { fault } => Contribution::RefusedBlock { fault },
            RefusalView::DirectoryInTheWay { .. } => Contribution::InTheWay,
        },
        _ => if !is_normalized_key(path) {
            Contribution::Containment { through: None }
        } else if !(action is Write || action is NotRecorded) && manifest.record(path) is None {
            Contribution::Foreign
        } else if written_link_target(action) is Some && !spec_is_pathname(
            written_link_target(action)->0,
        ) {
            Contribution::InvalidTarget { target: written_link_target(action)->0 }
        } else {
            Contribution::Admitted {
                fault: spec_admitted_fault(manifest.record(path), action),
                deep: (written_entry(action) is Some || action is Remove || action is RemoveDirectory)
                    && is_too_deep(path),
            }
        },
    }
}

/// What the whole-plan check has gathered, kind by kind, in plan order.
pub struct Ledger {
    pub containment: Seq<Seq<char>>,
    pub below: Seq<(Seq<char>, Seq<char>)>,
    pub tree_conflict: Seq<Seq<char>>,
    pub foreign: Seq<Seq<char>>,
    pub drift: Seq<Seq<char>>,
    pub owner_conflicts: Seq<(Seq<char>, Seq<Seq<char>>)>,
    pub external: Seq<(Seq<char>, Seq<char>)>,
    pub invalid: Seq<(Seq<char>, Seq<char>)>,
    pub blocks: Seq<(Seq<char>, BlockFault)>,
    pub in_the_way: Seq<Seq<char>>,
    pub too_deep: Option<Seq<char>>,
}

pub open spec fn empty_ledger() -> Ledger {
    Ledger {
        containment: Seq::empty(),
        below: Seq::empty(),
        tree_conflict: Seq::empty(),
        foreign: Seq::empty(),
        drift: Seq::empty(),
        owner_conflicts: Seq::empty(),
        external: Seq::empty(),
        invalid: Seq::empty(),
        blocks: Seq::empty(),
        in_the_way: Seq::empty(),
        too_deep: None,
    }
}

/// The ledger after one more action at `path`.
pub open spec fn ledger_add(l: Ledger, path: Seq<char>, c: Contribution) -> Ledger {
    match c {
        Contribution::Containment { through } => Ledger {
            containment: l.containment.push(path),
            below: match through {
                Some(link) => l.below.push((path, link)),
                None => l.below,
            },
            ..l
        },
        Contribution::TreeConflict => Ledger { tree_conflict: l.tree_conflict.push(path), ..l },
        Contribution::Foreign => Ledger { foreign: l.foreign.push(path), ..l },
        Contribution::Drift => Ledger { drift: l.drift.push(path), ..l },
        Contribution::OwnerConflict { owners } => Ledger {
            owner_conflicts: l.owner_conflicts.push((path, owners)),
            ..l
        },
        Contribution::ExternalTarget { target } => Ledger {
            external: l.external.push((path, target)),
            ..l
        },
        Contribution::InvalidTarget { target } => Ledger {
            invalid: l.invalid.push((path, target)),
            ..l
        },
        Contribution::RefusedBlock { fault } => Ledger { blocks: l.blocks.push((path, fault)), ..l },
        Contribution::InTheWay => Ledger { in_the_way: l.in_the_way.push(path), ..l },
        Contribution::Admitted { fault, deep } => Ledger {
            blocks: match fault {
                Some(f) => l.blocks.push((path, f)),
                None => l.blocks,
            },
            too_deep: if l.too_deep is None && deep {
                Some(depth_offender(path))
            } else {
                l.too_deep
            },
            ..l
        },
    }
}

/// What the whole-plan check gathers over `actions`, in order.
pub open spec fn spec_ledger(manifest: Manifest, actions: Seq<(Seq<char>, ActionView)>) -> Ledger
    decreases actions.len(),
{
    if actions.len() == 0 {
        empty_ledger()
    } else {
        let (path, action) = actions.last();
        ledger_add(
            spec_ledger(manifest, actions.drop_last()),
            path,
            spec_contribution(manifest, path, action),
        )
    }
}

/// Whether `error` is what a gathered ledger reports, under the fixed
/// precedence: containment, tree conflicts, foreign paths, drift, owner
/// conflicts, external targets, invalid targets, blocks, directories in the
/// way, then a write or removal too deep. A ledger with nothing in it reports nothing.
pub open spec fn reports(error: Error, l: Ledger, origin: OriginView) -> bool {
    if l.containment.len() > 0 {
        error matches Error::Refused(Refused::Containment { paths, below, origin: o }) && paths.deep_view()
            == l.containment && below.deep_view() == l.below && o@ == origin
    } else if l.tree_conflict.len() > 0 {
        error matches Error::Refused(Refused::TreeConflict { paths, origin: o }) && paths.deep_view()
            == l.tree_conflict && o@ == origin
    } else if l.foreign.len() > 0 {
        error matches Error::Refused(Refused::Foreign { paths }) && paths.deep_view() == l.foreign
    } else if l.drift.len() > 0 {
        error matches Error::Refused(Refused::Drift { paths }) && paths.deep_view() == l.drift
    } else if l.owner_conflicts.len() > 0 {
        error matches Error::Refused(Refused::OwnerConflict { conflicts })
            && conflicts.deep_view() == l.owner_conflicts
    } else if l.external.len() > 0 {
        error matches Error::Refused(Refused::ExternalTarget { links, origin: o })
            && links.deep_view() == l.external && o@ == origin
    } else if l.invalid.len() > 0 {
        error matches Error::Refused(Refused::InvalidTarget { links, origin: o })
            && links.deep_view() == l.invalid && o@ == origin
    } else if l.blocks.len() > 0 {
        error matches Error::Refused(Refused::Block { blocks }) && blocks@.len() == l.blocks.len()
            && forall|k: int|
            0 <= k < l.blocks.len() ==> blocks@[k].0@ == (#[trigger] l.blocks[k]).0 && blocks@[k].1
                == l.blocks[k].1
    } else if l.in_the_way.len() > 0 {
        error matches Error::Refused(Refused::DirectoryInTheWay { paths }) && paths.deep_view()
            == l.in_the_way
    } else if l.too_deep is Some {
        error matches Error::DestinationTooDeep { path, limit } && path@ == l.too_deep->0 && limit
            == MAX_WALK_DEPTH
    } else {
        false
    }
}

/// Whether a ledger holds nothing that stops the plan.
pub open spec fn is_clear(l: Ledger) -> bool {
    &&& l.containment.len() == 0
    &&& l.tree_conflict.len() == 0
    &&& l.foreign.len() == 0
    &&& l.drift.len() == 0
    &&& l.owner_conflicts.len() == 0
    &&& l.external.len() == 0
    &&& l.invalid.len() == 0
    &&& l.blocks.len() == 0
    &&& l.in_the_way.len() == 0
    &&& l.too_deep is None
}

/// One action's place in the whole-plan check, as values apply can hold.
enum Judged {
    Containment { through: Option<String> },
    TreeConflict,
    Foreign,
    Drift,
    OwnerConflict { owners: Vec<String> },
    ExternalTarget { target: String },
    InvalidTarget { target: String },
    RefusedBlock { fault: BlockFault },
    InTheWay,
    Admitted { fault: Option<BlockFault>, deep: Option<String> },
}

impl Judged {
    spec fn matches_contribution(&self, c: Contribution, path: Seq<char>) -> bool {
        match (self, c) {
            (Judged::Containment { through }, Contribution::Containment { through: t }) => match (
                through,
                t,
            ) {
                (Some(a), Some(b)) => a@ == b,
                (None, None) => true,
                _ => false,
            },
            (Judged::TreeConflict, Contribution::TreeConflict) => true,
            (Judged::Foreign, Contribution::Foreign) => true,
            (Judged::Drift, Contribution::Drift) => true,
            (Judged::OwnerConflict { owners }, Contribution::OwnerConflict { owners: o }) =>
                owners.deep_view() == o,
            (Judged::ExternalTarget { target }, Contribution::ExternalTarget { target: t }) =>
                target@ == t,
            (Judged::InvalidTarget { target }, Contribution::InvalidTarget { target: t }) =>
                target@ == t,
            (Judged::RefusedBlock { fault }, Contribution::RefusedBlock { fault: f }) => *fault
                == f,
            (Judged::InTheWay, Contribution::InTheWay) => true,
            (Judged::Admitted { fault, deep }, Contribution::Admitted { fault: f, deep: d }) => {
                &&& *fault == f
                &&& (deep is Some) == d
                &&& deep matches Some(o) ==> o@ == depth_offender(path)
            },
            _ => false,
        }
    }
}

/// The block rule an action's expected signature breaks against the record.
pub fn signature_block_fault(recorded: Option<&EntryKind>, expected: &EntryKind) -> (fault: Option<BlockFault>)
    ensures
        fault == spec_signature_block_fault(
            match recorded {
                Some(k) => Some(k@),
                None => None,
            },
            expected@,
        ),
{
    let record_is_block = match recorded {
        Some(kind) => kind.is_block(),
        None => false,
    };
    if record_is_block != expected.is_block() {
        return Some(BlockFault::KindChange);
    }
    if record_is_block {
        let same = match recorded {
            Some(kind) => kind.same_as(expected),
            None => false,
        };
        if !same {
            return Some(BlockFault::SignatureNotRecorded);
        }
    }
    None
}

/// The plan-time refusal a written block entry earns from its own fields.
pub fn entry_block_fault(entry: &Entry) -> (fault: Option<BlockFault>)
    ensures
        fault == spec_entry_block_fault(entry@),
{
    match entry {
        Entry::Block { body, marker, placement } => {
            let text = marker.as_str();
            assert(text.spec_bytes() == vstd::utf8::encode_utf8(marker@));
            entry_fault(text, *placement, body.as_slice())
        },
        Entry::File { .. } | Entry::Symlink { .. } => None,
    }
}

/// The directory a level past the limit on the way to a normalized `path`,
/// where acting there goes deeper than [`MAX_WALK_DEPTH`].
pub(crate) fn too_deep(path: &str) -> (offender: Option<String>)
    ensures
        offender is Some == is_too_deep(path@),
        offender matches Some(o) ==> o@ == depth_offender(path@),
{
    let chars = chars_of(path);
    let pieces = slash_pieces(&chars);
    if pieces.len() <= MAX_WALK_DEPTH + 1 {
        return None;
    }
    let mut head: Vec<(usize, usize)> = Vec::new();
    let mut i: usize = 0;
    while i < MAX_WALK_DEPTH + 1
        invariant
            i <= MAX_WALK_DEPTH + 1,
            MAX_WALK_DEPTH + 1 < pieces@.len(),
            head@ == pieces@.take(i as int),
        decreases MAX_WALK_DEPTH + 1 - i,
    {
        head.push(pieces[i]);
        i = i + 1;
        assert(head@ =~= pieces@.take(i as int));
    }
    let offender = join_pieces(&chars, path, &head);
    assert(Seq::new(
        head@.len(),
        |k: int| chars@.subrange(head@[k].0 as int, head@[k].1 as int),
    ) =~= split_slash(chars@).take(MAX_WALK_DEPTH + 1));
    Some(offender)
}

/// How the whole-plan check judges the action at `path`.
fn judge(manifest: &Manifest, path: &str, action: &Action) -> (judged: Judged)
    requires
        manifest.wf(),
    ensures
        judged.matches_contribution(spec_contribution(*manifest, path@, action@), path@),
{
    if let Action::Refuse { refusal } = action {
        return match refusal {
            Refusal::Containment { through } => Judged::Containment {
                through: match through {
                    Some(link) => Some(link.clone()),
                    None => None,
                },
            },
            Refusal::TreeConflict { .. } => Judged::TreeConflict,
            Refusal::Foreign => Judged::Foreign,
            Refusal::Drift => Judged::Drift,
            Refusal::OwnerConflict { owners } => Judged::OwnerConflict {
                owners: copy_strings(owners),
            },
            Refusal::ExternalTarget { target } => Judged::ExternalTarget { target: target.clone() },
            Refusal::InvalidTarget { target } => Judged::InvalidTarget { target: target.clone() },
            Refusal::Block { fault } => Judged::RefusedBlock { fault: *fault },
            Refusal::DirectoryInTheWay { .. } => Judged::InTheWay,
        };
    }
    match contained_normalize(path) {
        Some(normalized) => {
            if !text_eq(normalized.as_str(), path) {
                return Judged::Containment { through: None };
            }
        },
        None => return Judged::Containment { through: None },
    }
    let recorded = manifest.get(path);
    let passes_unrecorded = match action {
        Action::Write { .. } | Action::NotRecorded => true,
        _ => false,
    };
    if !passes_unrecorded && recorded.is_none() {
        return Judged::Foreign;
    }
    let written = match action {
        Action::Write { entry } => Some(entry),
        Action::Overwrite { entry, .. } => Some(entry),
        Action::OverwriteDirectory { entry } => Some(entry),
        _ => None,
    };
    if let Some(Entry::Symlink { target }) = written {
        if !is_pathname(target.as_str()) {
            return Judged::InvalidTarget { target: target.clone() };
        }
    }
    let kind = match recorded {
        Some(r) => Some(&r.kind),
        None => None,
    };
    let record_is_block = match kind {
        Some(k) => k.is_block(),
        None => false,
    };
    let fault = match action {
        Action::Write { entry } => {
            if recorded.is_some() && record_is_block != entry.kind().is_block() {
                Some(BlockFault::KindChange)
            } else {
                entry_block_fault(entry)
            }
        },
        Action::OverwriteDirectory { entry } => {
            if record_is_block != entry.kind().is_block() {
                Some(BlockFault::KindChange)
            } else {
                entry_block_fault(entry)
            }
        },
        Action::Overwrite { entry, expected, .. } => {
            let signature = signature_block_fault(kind, &expected.kind);
            if signature.is_some() {
                signature
            } else if record_is_block != entry.kind().is_block() {
                Some(BlockFault::KindChange)
            } else {
                entry_block_fault(entry)
            }
        },
        Action::Skip { expected, .. } => signature_block_fault(kind, &expected.kind),
        Action::Remove { expected: Some(expected) } => signature_block_fault(kind, &expected.kind),
        _ => None,
    };
    let walks = match action {
        Action::Remove { .. } | Action::RemoveDirectory => true,
        _ => written.is_some(),
    };
    let deep = if walks {
        too_deep(path)
    } else {
        None
    };
    Judged::Admitted { fault, deep }
}

/// The up-front whole-plan check behind apply's promise that nothing is
/// written when the plan cannot be honored whole: it gathers every planned
/// refusal, every key the containment gateway would rewrite, every action
/// other than a write at a path the manifest does not record, every link
/// written with a target that is not a pathname, every block rule broken and
/// the first write or removal too deep, and reports them as one error under a fixed
/// precedence. Refusals of the plan's own values name its origin.
pub fn validate(manifest: &Manifest, plan: &Plan) -> (checked: Result<(), Error>)
    requires
        manifest.wf(),
    ensures
        match checked {
            Ok(()) => is_clear(spec_ledger(*manifest, actions_view(plan.actions@))),
            Err(error) => reports(error, spec_ledger(*manifest, actions_view(plan.actions@)), plan.origin@),
        },
{
    let mut containment: Vec<String> = Vec::new();
    let mut below: Vec<(String, String)> = Vec::new();
    let mut tree_conflict: Vec<String> = Vec::new();
    let mut foreign: Vec<String> = Vec::new();
    let mut drift: Vec<String> = Vec::new();
    let mut owner_conflicts: Vec<(String, Vec<String>)> = Vec::new();
    let mut external: Vec<(String, String)> = Vec::new();
    let mut invalid: Vec<(String, String)> = Vec::new();
    let mut blocks: Vec<(String, BlockFault)> = Vec::new();
    let mut in_the_way: Vec<String> = Vec::new();
    let mut deepest: Option<String> = None;
    let ghost actions = actions_view(plan.actions@);
    let mut i: usize = 0;
    while i < plan.actions.len()
        invariant
            i <= plan.actions@.len(),
            manifest.wf(),
            actions == actions_view(plan.actions@),
            ({
                let l = spec_ledger(*manifest, actions.take(i as int));
                &&& containment.deep_view() == l.containment
                &&& below.deep_view() == l.below
                &&& tree_conflict.deep_view() == l.tree_conflict
                &&& foreign.deep_view() == l.foreign
                &&& drift.deep_view() == l.drift
                &&& owner_conflicts.deep_view() == l.owner_conflicts
                &&& external.deep_view() == l.external
                &&& invalid.deep_view() == l.invalid
                &&& blocks@.len() == l.blocks.len()
                &&& forall|k: int|
                    0 <= k < l.blocks.len() ==> blocks@[k].0@ == (#[trigger] l.blocks[k]).0
                        && blocks@[k].1 == l.blocks[k].1
                &&& in_the_way.deep_view() == l.in_the_way
                &&& match deepest {
                    Some(d) => l.too_deep == Some(d@),
                    None => l.too_deep is None,
                }
            }),
        decreases plan.actions.len() - i,
    {
        let (path, action) = (&plan.actions[i].0, &plan.actions[i].1);
        let ghost before = spec_ledger(*manifest, actions.take(i as int));
        proof {
            assert(actions.take(i + 1).drop_last() =~= actions.take(i as int));
            assert(actions.take(i + 1).last() == (path@, action@));
        }
        let judged = judge(manifest, path.as_str(), action);
        match judged {
            Judged::Containment { through } => {
                if let Some(link) = through {
                    below.push((path.clone(), link));
                }
                containment.push(path.clone());
            },
            Judged::TreeConflict => tree_conflict.push(path.clone()),
            Judged::Foreign => foreign.push(path.clone()),
            Judged::Drift => drift.push(path.clone()),
            Judged::OwnerConflict { owners } => owner_conflicts.push((path.clone(), owners)),
            Judged::ExternalTarget { target } => external.push((path.clone(), target)),
            Judged::InvalidTarget { target } => invalid.push((path.clone(), target)),
            Judged::RefusedBlock { fault } => blocks.push((path.clone(), fault)),
            Judged::InTheWay => in_the_way.push(path.clone()),
            Judged::Admitted { fault, deep } => {
                if let Some(f) = fault {
                    blocks.push((path.clone(), f));
                }
                if deepest.is_none() {
                    deepest = deep;
                }
            },
        }
        i = i + 1;
        proof {
            let l = spec_ledger(*manifest, actions.take(i as int));
            assert(containment.deep_view() =~= l.containment);
            assert(below.deep_view() =~= l.below);
            assert(tree_conflict.deep_view() =~= l.tree_conflict);
            assert(foreign.deep_view() =~= l.foreign);
            assert(drift.deep_view() =~= l.drift);
            assert(owner_conflicts.deep_view() =~= l.owner_conflicts);
            assert(external.deep_view() =~= l.external);
            assert(invalid.deep_view() =~= l.invalid);
            assert(in_the_way.deep_view() =~= l.in_the_way);
        }
    }
    assert(actions.take(plan.actions@.len() as int) =~= actions);
    if containment.len() > 0 {
        return Err(
            Error::Refused(Refused::Containment { paths: containment, below, origin: plan.origin.duplicate() }),
        );
    }
    if tree_conflict.len() > 0 {
        return Err(
            Error::Refused(
                Refused::TreeConflict { paths: tree_conflict, origin: plan.origin.duplicate() },
            ),
        );
    }
    if foreign.len() > 0 {
        return Err(Error::Refused(Refused::Foreign { paths: foreign }));
    }
    if drift.len() > 0 {
        return Err(Error::Refused(Refused::Drift { paths: drift }));
    }
    if owner_conflicts.len() > 0 {
        return Err(Error::Refused(Refused::OwnerConflict { conflicts: owner_conflicts }));
    }
    if external.len() > 0 {
        return Err(
            Error::Refused(Refused::ExternalTarget { links: external, origin: plan.origin.duplicate() }),
        );
    }
    if invalid.len() > 0 {
        return Err(
            Error::Refused(Refused::InvalidTarget { links: invalid, origin: plan.origin.duplicate() }),
        );
    }
    if blocks.len() > 0 {
        return Err(Error::Refused(Refused::Block { blocks }));
    }
    if in_the_way.len() > 0 {
        return Err(Error::Refused(Refused::DirectoryInTheWay { paths: in_the_way }));
    }
    if let Some(path) = deepest {
        return Err(Error::DestinationTooDeep { path, limit: MAX_WALK_DEPTH });
    }
    Ok(())
}


// ---- what each action does to the manifest ----

/// The owners a record carries after `owner` writes or adopts it: those it
/// had, if any, and `owner`.
pub open spec fn owners_after(old: Option<RecordView>, owner: Seq<char>) -> Seq<Seq<char>> {
    owners_with(
        match old {
            Some(r) => r.owners,
            None => Seq::empty(),
        },
        owner,
    )
}

/// Copies of the owners at `path`, or none.
fn owners_at(manifest: &Manifest, path: &str) -> (owners: Vec<String>)
    requires
        manifest.wf(),
    ensures
        owners.deep_view() == match manifest.record(path@) {
            Some(r) => r.owners,
            None => Seq::empty(),
        },
{
    match manifest.get(path) {
        Some(recorded) => copy_strings(&recorded.owners),
        None => {
            let none: Vec<String> = Vec::new();
            assert(none.deep_view() =~= Seq::<Seq<char>>::empty());
            none
        },
    }
}

/// `owners` with `owner` added unless it is there already.
fn add_owner(owners: &mut Vec<String>, owner: &str)
    ensures
        final(owners).deep_view() == owners_with(old(owners).deep_view(), owner@),
{
    match crate::manifest::position_of(owners, owner) {
        Some(i) => {
            assert(old(owners).deep_view()[i as int] == owner@);
        },
        None => {
            owners.push(owner.to_owned());
            assert(owners.deep_view() =~= old(owners).deep_view().push(owner@));
        },
    }
}

/// Records `path` in `manifest` as holding `entry`, under the union of the
/// owners already recorded there and `owner`. Every other path keeps its
/// record.
pub fn record(manifest: &mut Manifest, path: &str, entry: &Entry, owner: &str)
    requires
        old(manifest).wf(),
    ensures
        final(manifest).wf(),
        final(manifest).version == old(manifest).version,
        final(manifest).record(path@) == Some(
            RecordView {
                kind: entry@.kind(),
                hash: spec_desired_hash(entry@),
                executable: spec_desired_executable(entry@),
                owners: owners_after(old(manifest).record(path@), owner@),
            },
        ),
        forall|p: Seq<char>| p != path@ ==> final(manifest).record(p) == old(manifest).record(p),
{
    let hash = crate::decide::desired_hash(entry);
    let executable = crate::decide::desired_executable(entry);
    let mut owners = owners_at(manifest, path);
    proof {
        crate::manifest::lemma_recorded_owners_are_distinct(manifest, path@);
        crate::manifest::lemma_owners_with_distinct(owners.deep_view(), owner@);
    }
    add_owner(&mut owners, owner);
    let kind = entry.kind();
    let recorded = ManifestEntry { kind, hash, executable, owners };
    manifest.insert(path.to_owned(), recorded);
}

/// Records `path` in `manifest` with the signature the plan expects, under
/// the union of the owners already recorded there and `owner` — an
/// [`Action::Skip`]'s whole effect on the manifest.
pub fn record_skip(manifest: &mut Manifest, path: &str, expected: &NodeSignature, owner: &str)
    requires
        old(manifest).wf(),
    ensures
        final(manifest).wf(),
        final(manifest).version == old(manifest).version,
        final(manifest).record(path@) == Some(
            RecordView {
                kind: expected@.kind,
                hash: expected@.hash,
                executable: expected@.executable,
                owners: owners_after(old(manifest).record(path@), owner@),
            },
        ),
        forall|p: Seq<char>| p != path@ ==> final(manifest).record(p) == old(manifest).record(p),
{
    let mut owners = owners_at(manifest, path);
    proof {
        crate::manifest::lemma_recorded_owners_are_distinct(manifest, path@);
        crate::manifest::lemma_owners_with_distinct(owners.deep_view(), owner@);
    }
    add_owner(&mut owners, owner);
    let recorded = ManifestEntry {
        kind: expected.kind.duplicate(),
        hash: expected.hash.clone(),
        executable: expected.executable,
        owners,
    };
    manifest.insert(path.to_owned(), recorded);
}

/// Every owner in `owners` but `owner`.
pub open spec fn without_owner(owners: Seq<Seq<char>>, owner: Seq<char>) -> Seq<Seq<char>> {
    owners.filter(|o: Seq<char>| o != owner)
}

/// Drops `owner` from the record at `path`; the last owner out takes the
/// record with it. A path the manifest does not record is left alone. Every
/// other path keeps its record.
pub fn release(manifest: &mut Manifest, path: &str, owner: &str)
    requires
        old(manifest).wf(),
    ensures
        final(manifest).wf(),
        final(manifest).version == old(manifest).version,
        match old(manifest).record(path@) {
            None => final(manifest).record(path@) is None,
            Some(r) => {
                let left = crate::decide::others_than(r.owners, owner@);
                if left.len() == 0 {
                    final(manifest).record(path@) is None
                } else {
                    final(manifest).record(path@) == Some(RecordView { owners: left, ..r })
                }
            },
        },
        forall|p: Seq<char>| p != path@ ==> final(manifest).record(p) == old(manifest).record(p),
{
    let recorded = match manifest.get(path) {
        Some(recorded) => recorded.duplicate(),
        None => return,
    };
    let left = crate::decide::other_owners(&recorded.owners, owner);
    proof {
        crate::manifest::lemma_recorded_owners_are_distinct(manifest, path@);
        crate::decide::lemma_others_than_distinct(recorded.owners.deep_view(), owner@);
    }
    if left.len() == 0 {
        manifest.remove(path);
    } else {
        let kept = ManifestEntry {
            kind: recorded.kind,
            hash: recorded.hash,
            executable: recorded.executable,
            owners: left,
        };
        manifest.insert(path.to_owned(), kept);
    }
}

// ---- what a block action writes, given one read of its container ----

/// The error refusing the one path `path` as drifted.
pub open spec fn is_drift_at(error: Error, path: Seq<char>) -> bool {
    error matches Error::Refused(Refused::Drift { paths }) && paths.deep_view() == seq![path]
}

/// The error refusing the one path `path` as foreign.
pub open spec fn is_foreign_at(error: Error, path: Seq<char>) -> bool {
    error matches Error::Refused(Refused::Foreign { paths }) && paths.deep_view() == seq![path]
}

/// The error refusing the block at `path` for `fault`.
pub open spec fn is_block_fault_at(error: Error, path: Seq<char>, fault: BlockFault) -> bool {
    error matches Error::Refused(Refused::Block { blocks }) && blocks@.len() == 1 && blocks@[0].0@
        == path && blocks@[0].1 == fault
}

/// The body of the region `m` and `placement` locate in `c`.
pub open spec fn region_body(c: Seq<u8>, m: Seq<u8>, placement: Placement) -> Seq<u8> {
    let r = choose|r: crate::block::Region| is_region(c, m, placement, r);
    c.subrange(r.body.start as int, r.body.end as int)
}

/// The bytes outside the region `m` and `placement` locate in `c`.
pub open spec fn region_stripped(c: Seq<u8>, m: Seq<u8>, placement: Placement) -> Seq<u8> {
    let r = choose|r: crate::block::Region| is_region(c, m, placement, r);
    spec_strip(c, r.extent.start as int, r.extent.end as int)
}

/// A region [`locate`] answers with is the one [`region_body`] and
/// [`region_stripped`] speak of.
proof fn lemma_located_region(c: Seq<u8>, m: Seq<u8>, placement: Placement, r: crate::block::Region)
    requires
        is_region(c, m, placement, r),
    ensures
        c.subrange(r.body.start as int, r.body.end as int) == region_body(c, m, placement),
        spec_strip(c, r.extent.start as int, r.extent.end as int) == region_stripped(c, m, placement),
{
    let q = choose|q: crate::block::Region| is_region(c, m, placement, q);
    assert(is_region(c, m, placement, q));
    match placement {
        Placement::Append => {
            if q.extent.start < r.extent.start {
                assert(!crate::block::is_occurrence(c, m, r.extent.start as int));
            }
            if r.extent.start < q.extent.start {
                assert(!crate::block::is_occurrence(c, m, q.extent.start as int));
            }
        },
        Placement::Prepend => {
            if q.body.end < r.body.end {
                assert(!crate::block::is_occurrence(c, m, q.body.end as int));
            }
            if r.body.end < q.body.end {
                assert(!crate::block::is_occurrence(c, m, r.body.end as int));
            }
        },
    }
}

/// A container holding its marker on exactly one line holds an occurrence.
proof fn lemma_counted_occurrence(b: Seq<u8>, m: Seq<u8>, n: int)
    requires
        crate::block::occurrences_below(b, m, n) > 0,
    ensures
        crate::block::has_occurrence(b, m),
    decreases n,
{
    if n > 0 && !crate::block::is_occurrence(b, m, n - 1) {
        lemma_counted_occurrence(b, m, n - 1);
    }
}

/// What a block write does to the container it read.
#[derive(Debug, PartialEq, Eq)]
pub enum BlockWrite {
    /// The region already carries the desired body; nothing is written.
    Adopted,
    /// The container's new bytes.
    Spliced(Vec<u8>),
}

/// The refusal of the one path `path` as drifted.
fn drift(path: &str) -> (error: Error)
    ensures
        is_drift_at(error, path@),
{
    let paths = vec![path.to_owned()];
    assert(paths.deep_view() =~= seq![path@]);
    Error::Refused(Refused::Drift { paths })
}

/// The refusal of the one path `path` as foreign.
fn foreign(path: &str) -> (error: Error)
    ensures
        is_foreign_at(error, path@),
{
    let paths = vec![path.to_owned()];
    assert(paths.deep_view() =~= seq![path@]);
    Error::Refused(Refused::Foreign { paths })
}

/// The refusal of a node standing where a write expected nothing, or where a
/// container or a directory was needed: drift where the manifest records the
/// path, since the node changed under the plan, and foreign where it does
/// not, since the projection never wrote it.
pub fn occupied_refusal(manifest: &Manifest, path: &str) -> (error: Error)
    requires
        manifest.wf(),
    ensures
        manifest.record(path@) is Some ==> is_drift_at(error, path@),
        manifest.record(path@) is None ==> is_foreign_at(error, path@),
{
    if manifest.contains_key(path) {
        drift(path)
    } else {
        foreign(path)
    }
}

/// The permission bits a file entry is published with: `0o755` executable,
/// `0o644` not.
pub fn file_mode(executable: bool) -> (mode: u32)
    ensures
        mode == if executable {
            0o755u32
        } else {
            0o644u32
        },
{
    if executable {
        0o755
    } else {
        0o644
    }
}

/// Holds a write to its action key: `landing` is where the walk to the parent
/// came out, joined with the leaf, and anywhere but `path` refuses as
/// leaving the destination. A walk that followed an owned link can arrive
/// somewhere the action does not name, and writing there would put bytes at
/// one location while the manifest records another.
pub fn at_action_key(path: &str, landing: &str) -> (held: Result<(), Error>)
    ensures
        held is Ok <==> landing@ == path@,
        held is Err ==> (held matches Err(e) && crate::walk::is_containment_at(e, path@)),
{
    if text_eq(landing, path) {
        Ok(())
    } else {
        let paths = vec![path.to_owned()];
        assert(paths.deep_view() =~= seq![path@]);
        Err(Error::Refused(Refused::Containment { paths, below: Vec::new(), origin: Origin::Caller }))
    }
}

/// The refusal of the block at `path` for `fault`.
pub fn block_fault_refusal(path: &str, fault: BlockFault) -> (error: Error)
    ensures
        is_block_fault_at(error, path@, fault),
{
    Error::Refused(Refused::Block { blocks: vec![(path.to_owned(), fault)] })
}

/// The marker bytes and placement a record names, where it records a block.
pub open spec fn recorded_region(recorded: Option<RecordView>) -> Option<(Seq<u8>, Placement)> {
    match recorded {
        Some(r) => match r.kind {
            KindView::Block { marker, placement } => Some(
                (vstd::utf8::encode_utf8(marker), placement),
            ),
            _ => None,
        },
        None => None,
    }
}


/// What a block write makes of the container bytes `c` it read: the
/// outcome [`write_block`] answers once a container stands at `path`.
pub open spec fn block_write_outcome(
    manifest: Manifest,
    path: Seq<char>,
    c: Seq<u8>,
    body: Seq<u8>,
    marker: Seq<char>,
    placement: Placement,
    written: Result<BlockWrite, Error>,
) -> bool {
    let m = vstd::utf8::encode_utf8(marker);
    let recorded = manifest.record(path);
    let reappeared = recorded_region(recorded) matches Some((wm, wp)) && crate::block::has_occurrence(c, wm);
    let unidentified = |e: Error| if recorded is Some {
        is_drift_at(e, path)
    } else {
        is_foreign_at(e, path)
    };
    if reappeared {
        written matches Err(e) && is_drift_at(e, path)
    } else if occurrence_total(c, m) > 1 {
        written matches Err(e) && unidentified(e)
    } else if crate::block::has_occurrence(c, m) {
        if region_body(c, m, placement) == body {
            written matches Ok(BlockWrite::Adopted)
        } else {
            written matches Err(e) && unidentified(e)
        }
    } else if placement == Placement::Append && !spec_newline_terminated(c) {
        written matches Err(e) && is_block_fault_at(e, path, BlockFault::ContainerNotNewlineTerminated)
    } else {
        written matches Ok(BlockWrite::Spliced(bytes)) && bytes@ == spec_splice(c, m, placement, body)
    }
}

/// What a block [`Write`](Action::Write) does with the container standing at
/// `path`, `None` where none does: a block never creates its container, so
/// a missing one is refused; otherwise see [`block_write_outcome`].
pub fn write_block(
    manifest: &Manifest,
    path: &str,
    container: Option<&[u8]>,
    body: &[u8],
    marker: &str,
    placement: Placement,
) -> (written: Result<BlockWrite, Error>)
    requires
        manifest.wf(),
    ensures
        container is None ==> (written matches Err(e) && is_block_fault_at(
            e,
            path@,
            BlockFault::ContainerMissing,
        )),
        container matches Some(c) ==> block_write_outcome(
            *manifest,
            path@,
            c@,
            body@,
            marker@,
            placement,
            written,
        ),
{
    match container {
        None => Err(block_fault_refusal(path, BlockFault::ContainerMissing)),
        Some(c) => {
            proof {
                vstd::utf8::encode_utf8_decode_utf8(marker@);
            }
            splice_into_container(manifest, path, c, body, marker, placement)
        },
    }
}

/// The outcome of a block write over the bytes of a standing container.
fn splice_into_container(
    manifest: &Manifest,
    path: &str,
    container: &[u8],
    body: &[u8],
    marker: &str,
    placement: Placement,
) -> (written: Result<BlockWrite, Error>)
    requires
        manifest.wf(),
    ensures
        ({
            let c = container@;
            let m = marker.spec_bytes();
            let recorded = manifest.record(path@);
            let reappeared = recorded_region(recorded) matches Some((wm, wp)) && crate::block::has_occurrence(c, wm);
            let unidentified = |e: Error| if recorded is Some {
                is_drift_at(e, path@)
            } else {
                is_foreign_at(e, path@)
            };
            if reappeared {
                written matches Err(e) && is_drift_at(e, path@)
            } else if occurrence_total(c, m) > 1 {
                written matches Err(e) && unidentified(e)
            } else if crate::block::has_occurrence(c, m) {
                if region_body(c, m, placement) == body@ {
                    written matches Ok(BlockWrite::Adopted)
                } else {
                    written matches Err(e) && unidentified(e)
                }
            } else if placement == Placement::Append && !spec_newline_terminated(c) {
                written matches Err(e) && is_block_fault_at(e, path@, BlockFault::ContainerNotNewlineTerminated)
            } else {
                written matches Ok(BlockWrite::Spliced(bytes)) && bytes@ == spec_splice(c, m, placement, body@)
            }
        }),
{
    if let Some(recorded) = manifest.get(path) {
        if let Some((was_marker, was_placement)) = block_kind(&recorded.kind) {
            if locate(container, was_marker, was_placement).is_some() {
                return Err(drift(path));
            }
        }
    }
    let recorded = manifest.contains_key(path);
    if occurrence_count(container, marker) > 1 {
        return Err(
            if recorded {
                drift(path)
            } else {
                foreign(path)
            },
        );
    }
    if let Some(region) = locate(container, marker, placement) {
        proof {
            lemma_located_region(container@, marker.spec_bytes(), placement, region);
        }
        let found = &container[region.body.start..region.body.end];
        if bytes_eq(found, body) {
            return Ok(BlockWrite::Adopted);
        }
        return Err(
            if recorded {
                drift(path)
            } else {
                foreign(path)
            },
        );
    }
    let appended = match placement {
        Placement::Append => true,
        Placement::Prepend => false,
    };
    if appended && !newline_terminated(container) {
        return Err(block_fault_refusal(path, BlockFault::ContainerNotNewlineTerminated));
    }
    Ok(BlockWrite::Spliced(splice(container, marker, placement, body)))
}

/// Whether two byte runs are equal.
pub fn bytes_eq(a: &[u8], b: &[u8]) -> (same: bool)
    ensures
        same == (a@ == b@),
{
    if a.len() != b.len() {
        return false;
    }
    let mut i: usize = 0;
    while i < a.len()
        invariant
            i <= a@.len(),
            a@.len() == b@.len(),
            forall|k: int| 0 <= k < i ==> a@[k] == b@[k],
        decreases a.len() - i,
    {
        if a[i] != b[i] {
            return false;
        }
        i = i + 1;
    }
    assert(a@ =~= b@);
    true
}

/// What a block [`Overwrite`](Action::Overwrite) writes into the container it
/// read: the region the expected signature names must still be the one the
/// recorded marker identifies and carry the expected hash, the new marker
/// must not already sit in the author's side, and an appended region needs an
/// author's side ending with `\n`; then the old region is stripped and the
/// new one spliced in, so a changed marker or placement migrates in one
/// publish.
pub fn overwrite_block(
    path: &str,
    container: &[u8],
    expected_marker: &str,
    expected_placement: Placement,
    expected_hash: &str,
    body: &[u8],
    marker: &str,
    placement: Placement,
) -> (written: Result<Vec<u8>, Error>)
    ensures
        ({
            let c = container@;
            let em = expected_marker.spec_bytes();
            let m = marker.spec_bytes();
            if occurrence_total(c, em) != 1 {
                written matches Err(e) && is_drift_at(e, path@)
            } else if spec_sha256_hex(region_body(c, em, expected_placement)) != expected_hash@ {
                written matches Err(e) && is_drift_at(e, path@)
            } else if occurrence_total(region_stripped(c, em, expected_placement), m) > 0 {
                written matches Err(e) && is_drift_at(e, path@)
            } else if placement == Placement::Append && !spec_newline_terminated(
                region_stripped(c, em, expected_placement),
            ) {
                written matches Err(e) && is_block_fault_at(e, path@, BlockFault::ContainerNotNewlineTerminated)
            } else {
                written matches Ok(bytes) && bytes@ == spec_splice(
                    region_stripped(c, em, expected_placement),
                    m,
                    placement,
                    body@,
                )
            }
        }),
{
    if occurrence_count(container, expected_marker) != 1 {
        return Err(drift(path));
    }
    proof {
        lemma_counted_occurrence(container@, expected_marker.spec_bytes(), container@.len() as int + 1);
    }
    let region = match locate(container, expected_marker, expected_placement) {
        Some(region) => region,
        None => return Err(drift(path)),
    };
    proof {
        lemma_located_region(container@, expected_marker.spec_bytes(), expected_placement, region);
    }
    let found = sha256_hex(&container[region.body.start..region.body.end]);
    if !text_eq(found.as_str(), expected_hash) {
        return Err(drift(path));
    }
    let author = strip(container, Some(&region));
    if occurrence_count(author.as_slice(), marker) > 0 {
        return Err(drift(path));
    }
    let appended = match placement {
        Placement::Append => true,
        Placement::Prepend => false,
    };
    if appended && !newline_terminated(author.as_slice()) {
        return Err(block_fault_refusal(path, BlockFault::ContainerNotNewlineTerminated));
    }
    Ok(splice(author.as_slice(), marker, placement, body))
}

/// What a block [`Remove`](Action::Remove) does with the container it read —
/// `None` where no container stands. Expecting a region, the one the marker
/// identifies must carry the expected hash, and the author's side left once
/// it is stripped is what is republished. Expecting none, nothing must have
/// appeared and nothing is written. A marker on more than one line is drift
/// under either expectation; a container that is gone is a removal already
/// done, unless a region was expected.
pub fn remove_block(
    path: &str,
    container: Option<&[u8]>,
    marker: &str,
    placement: Placement,
    expected_hash: Option<&str>,
) -> (stripped: Result<Option<Vec<u8>>, Error>)
    ensures
        match container {
            None => if expected_hash is Some {
                stripped matches Err(e) && is_drift_at(e, path@)
            } else {
                stripped matches Ok(None)
            },
            Some(bytes) => {
                let c = bytes@;
                let m = marker.spec_bytes();
                if occurrence_total(c, m) > 1 {
                    stripped matches Err(e) && is_drift_at(e, path@)
                } else {
                    match expected_hash {
                        Some(hash) => if crate::block::has_occurrence(c, m) && spec_sha256_hex(
                            region_body(c, m, placement),
                        ) == hash@ {
                            stripped matches Ok(Some(author)) && author@ == region_stripped(
                                c,
                                m,
                                placement,
                            )
                        } else {
                            stripped matches Err(e) && is_drift_at(e, path@)
                        },
                        None => if crate::block::has_occurrence(c, m) {
                            stripped matches Err(e) && is_drift_at(e, path@)
                        } else {
                            stripped matches Ok(None)
                        },
                    }
                }
            },
        },
{
    let container = match container {
        Some(container) => container,
        None => {
            return if expected_hash.is_some() {
                Err(drift(path))
            } else {
                Ok(None)
            };
        },
    };
    if occurrence_count(container, marker) > 1 {
        return Err(drift(path));
    }
    match (expected_hash, locate(container, marker, placement)) {
        (Some(hash), Some(region)) => {
            proof {
                lemma_located_region(container@, marker.spec_bytes(), placement, region);
            }
            let found = sha256_hex(&container[region.body.start..region.body.end]);
            if !text_eq(found.as_str(), hash) {
                return Err(drift(path));
            }
            Ok(Some(strip(container, Some(&region))))
        },
        (Some(_), None) | (None, Some(_)) => Err(drift(path)),
        (None, None) => Ok(None),
    }
}

/// The changed-since-plan re-check of a region a [`Skip`](Action::Skip)
/// leaves in place: the marker must identify exactly one region and its body
/// must carry the expected hash.
pub fn check_region(path: &str, container: &[u8], marker: &str, placement: Placement, expected_hash: &str) -> (checked: Result<(), Error>)
    ensures
        ({
            let c = container@;
            let m = marker.spec_bytes();
            if occurrence_total(c, m) == 1 && spec_sha256_hex(region_body(c, m, placement)) == expected_hash@ {
                checked is Ok
            } else {
                checked matches Err(e) && is_drift_at(e, path@)
            }
        }),
{
    if occurrence_count(container, marker) != 1 {
        return Err(drift(path));
    }
    proof {
        lemma_counted_occurrence(container@, marker.spec_bytes(), container@.len() as int + 1);
    }
    let region = match locate(container, marker, placement) {
        Some(region) => region,
        None => return Err(drift(path)),
    };
    proof {
        lemma_located_region(container@, marker.spec_bytes(), placement, region);
    }
    let found = sha256_hex(&container[region.body.start..region.body.end]);
    if !text_eq(found.as_str(), expected_hash) {
        return Err(drift(path));
    }
    Ok(())
}


// ---- laws ----

/// What one run records is what the next run skips: after [`record`] writes
/// `entry` for `owner` over whatever the path recorded before, a disk node
/// that is the one `entry` wrote classifies clean and planning `entry` again
/// skips it.
pub proof fn lemma_recorded_write_is_skipped_next_run(
    before: Option<RecordView>,
    owner: Seq<char>,
    entry: EntryView,
    observation: crate::decide::Observation,
    policy: crate::decide::DriftPolicy,
)
    requires
        crate::decide::observes_written(entry, observation),
        entry matches EntryView::Block { body, marker, placement } ==> spec_entry_fault(
            vstd::utf8::encode_utf8(marker),
            placement,
            body,
        ) is None,
    ensures
        ({
            let recorded = RecordView {
                kind: entry.kind(),
                hash: spec_desired_hash(entry),
                executable: spec_desired_executable(entry),
                owners: owners_after(before, owner),
            };
            &&& crate::decide::spec_recorded_state(recorded, Some(observation))
                == crate::decide::PathState::Clean
            &&& crate::decide::spec_desired_action(
                owner,
                entry,
                Some(crate::decide::PathState::Clean),
                Some(recorded),
                Some(observation),
                policy,
            ) == (ActionView::Skip {
                entry,
                expected: crate::decide::spec_desired_signature(entry),
            })
        }),
{
    let owners = owners_after(before, owner);
    assert(owners.contains(owner)) by {
        let had = match before {
            Some(r) => r.owners,
            None => Seq::<Seq<char>>::empty(),
        };
        if !had.contains(owner) {
            assert(owners[owners.len() - 1] == owner);
        }
    }
    crate::decide::lemma_rewriting_what_was_written_skips(owner, entry, owners, observation, policy);
}

/// The whole-plan check only grows what it has gathered.
proof fn lemma_ledger_grows(manifest: Manifest, actions: Seq<(Seq<char>, ActionView)>, n: int)
    requires
        0 <= n <= actions.len(),
    ensures
        !is_clear(spec_ledger(manifest, actions.take(n))) ==> !is_clear(spec_ledger(manifest, actions)),
    decreases actions.len() - n,
{
    if n < actions.len() {
        lemma_ledger_grows(manifest, actions, n + 1);
        assert(actions.take(n + 1).drop_last() =~= actions.take(n));
    } else {
        assert(actions.take(n) =~= actions);
    }
}

/// A plan that carries a refusal anywhere is declined whole: the whole-plan
/// check gathers something, so apply writes nothing.
pub proof fn lemma_a_refusal_declines_the_plan(
    manifest: Manifest,
    actions: Seq<(Seq<char>, ActionView)>,
    i: int,
)
    requires
        0 <= i < actions.len(),
        actions[i].1 is Refuse,
    ensures
        !is_clear(spec_ledger(manifest, actions)),
{
    assert(actions.take(i + 1).drop_last() =~= actions.take(i));
    assert(actions.take(i + 1).last() == actions[i]);
    lemma_ledger_grows(manifest, actions, i + 1);
}

/// A plan whose keys the gateway would rewrite is declined whole.
pub proof fn lemma_an_unnormalized_key_declines_the_plan(
    manifest: Manifest,
    actions: Seq<(Seq<char>, ActionView)>,
    i: int,
)
    requires
        0 <= i < actions.len(),
        !is_normalized_key(actions[i].0),
    ensures
        !is_clear(spec_ledger(manifest, actions)),
{
    assert(actions.take(i + 1).drop_last() =~= actions.take(i));
    assert(actions.take(i + 1).last() == actions[i]);
    lemma_ledger_grows(manifest, actions, i + 1);
}


// ---- the order a run takes its plan in ----

/// Which pass of a run an action belongs to.
#[derive(Debug, Clone, Copy, PartialEq, Eq, Structural)]
pub enum Phase {
    /// Removals run first, children before parents: a plan may remove a
    /// recorded file and write beneath its former path in one run.
    Removal,
    /// Everything else that touches disk or manifest, in plan order.
    Step,
    /// Symlink writes wait until everything else is placed, since a link's
    /// target is graded against the destination as it stands.
    Link,
    /// Symlink skips are re-graded once the destination is finished.
    LinkSkip,
    /// A refusal is never carried out.
    Untouched,
}

/// The pass `action` runs in.
pub open spec fn spec_phase(action: ActionView) -> Phase {
    match action {
        ActionView::Remove { .. } | ActionView::RemoveDirectory => Phase::Removal,
        ActionView::Refuse { .. } => Phase::Untouched,
        ActionView::Write { entry } | ActionView::Overwrite { entry, .. } => if entry is Symlink {
            Phase::Link
        } else {
            Phase::Step
        },
        ActionView::Skip { expected, .. } => if expected.kind == KindView::Symlink {
            Phase::LinkSkip
        } else {
            Phase::Step
        },
        _ => Phase::Step,
    }
}

/// The pass `action` runs in.
pub fn phase(action: &Action) -> (p: Phase)
    ensures
        p == spec_phase(action@),
{
    match action {
        Action::Remove { .. } | Action::RemoveDirectory => Phase::Removal,
        Action::Refuse { .. } => Phase::Untouched,
        Action::Write { entry } | Action::Overwrite { entry, .. } => match entry {
            Entry::Symlink { .. } => Phase::Link,
            _ => Phase::Step,
        },
        Action::Skip { expected, .. } => match expected.kind {
            EntryKind::Symlink => Phase::LinkSkip,
            _ => Phase::Step,
        },
        _ => Phase::Step,
    }
}

/// The indices of `actions` that run in pass `p`, in plan order.
pub open spec fn indices_in(actions: Seq<(Seq<char>, ActionView)>, p: Phase) -> Seq<usize>
    decreases actions.len(),
{
    if actions.len() == 0 {
        Seq::empty()
    } else {
        let before = indices_in(actions.drop_last(), p);
        if spec_phase(actions.last().1) == p {
            before.push((actions.len() - 1) as usize)
        } else {
            before
        }
    }
}

/// The order a run takes a plan's actions in, by index into its actions.
#[derive(Debug)]
pub struct Schedule {
    /// Removals, last planned first.
    pub removals: Vec<usize>,
    /// Every other action that touches disk or manifest, in plan order.
    pub steps: Vec<usize>,
    /// Symlink writes and overwrites, in plan order.
    pub links: Vec<usize>,
    /// Symlink skips, in plan order.
    pub link_skips: Vec<usize>,
}

/// The order a run takes `plan`'s actions in: removals in reverse, then every
/// other action in plan order but the symlink ones, then the symlink writes,
/// then the symlink skips. Refusals are never carried out.
pub fn schedule(plan: &Plan) -> (order: Schedule)
    ensures
        order.removals@ == indices_in(actions_view(plan.actions@), Phase::Removal).reverse(),
        order.steps@ == indices_in(actions_view(plan.actions@), Phase::Step),
        order.links@ == indices_in(actions_view(plan.actions@), Phase::Link),
        order.link_skips@ == indices_in(actions_view(plan.actions@), Phase::LinkSkip),
{
    let ghost all = actions_view(plan.actions@);
    let mut removals: Vec<usize> = Vec::new();
    let mut steps: Vec<usize> = Vec::new();
    let mut links: Vec<usize> = Vec::new();
    let mut link_skips: Vec<usize> = Vec::new();
    let mut i: usize = 0;
    while i < plan.actions.len()
        invariant
            i <= plan.actions@.len(),
            all == actions_view(plan.actions@),
            removals@ == indices_in(all.take(i as int), Phase::Removal),
            steps@ == indices_in(all.take(i as int), Phase::Step),
            links@ == indices_in(all.take(i as int), Phase::Link),
            link_skips@ == indices_in(all.take(i as int), Phase::LinkSkip),
        decreases plan.actions.len() - i,
    {
        proof {
            assert(all.take(i + 1).drop_last() =~= all.take(i as int));
            assert(all.take(i + 1).last() == all[i as int]);
        }
        match phase(&plan.actions[i].1) {
            Phase::Removal => removals.push(i),
            Phase::Step => steps.push(i),
            Phase::Link => links.push(i),
            Phase::LinkSkip => link_skips.push(i),
            Phase::Untouched => {},
        }
        i = i + 1;
    }
    assert(all.take(plan.actions@.len() as int) =~= all);
    let ghost forward = removals@;
    let mut reversed: Vec<usize> = Vec::new();
    let mut j: usize = removals.len();
    while j > 0
        invariant
            j <= forward.len(),
            removals@ == forward,
            reversed@ == forward.reverse().take(forward.len() - j),
        decreases j,
    {
        j = j - 1;
        reversed.push(removals[j]);
        assert(reversed@ =~= forward.reverse().take(forward.len() - j));
    }
    assert(forward.reverse().take(forward.len() as int) =~= forward.reverse());
    Schedule { removals: reversed, steps, links, link_skips }
}

/// The directories a removal at `resolved` may have emptied: each proper,
/// non-empty ancestor, deepest first.
pub fn removal_ancestors(resolved: &str) -> (ancestors: Vec<String>)
    ensures
        ancestors.deep_view() == Seq::new(
            (split_slash(resolved@).len() - 1) as nat,
            |k: int| join_slash(split_slash(resolved@).take(split_slash(resolved@).len() - 1 - k)),
        ),
{
    let chars = chars_of(resolved);
    let pieces = slash_pieces(&chars);
    proof {
        crate::containment::lemma_split_slash_nonempty(resolved@);
    }
    let ghost parts = split_slash(resolved@);
    let n = pieces.len();
    let mut ancestors: Vec<String> = Vec::new();
    let mut k: usize = 0;
    while k + 1 < n
        invariant
            n == parts.len(),
            n >= 1,
            k + 1 <= n,
            pieces@.len() == n,
            chars@ == resolved@,
            forall|x: int|
                0 <= x < pieces@.len() ==> {
                    &&& (#[trigger] pieces@[x]).0 <= pieces@[x].1 <= chars@.len()
                    &&& chars@.subrange(pieces@[x].0 as int, pieces@[x].1 as int) == parts[x]
                },
            ancestors.deep_view() == Seq::new(
                k as nat,
                |x: int| join_slash(parts.take(n - 1 - x)),
            ),
        decreases n - k,
    {
        let mut kept: Vec<(usize, usize)> = Vec::new();
        let mut x: usize = 0;
        while x < n - 1 - k
            invariant
                x <= n - 1 - k,
                k + 1 < n,
                pieces@.len() == n,
                kept@.len() == x,
                forall|y: int| 0 <= y < x ==> #[trigger] kept@[y] == pieces@[y],
            decreases n - 1 - k - x,
        {
            kept.push(pieces[x]);
            x = x + 1;
        }
        let joined = join_pieces(&chars, resolved, &kept);
        assert(Seq::new(
            kept@.len(),
            |y: int| chars@.subrange(kept@[y].0 as int, kept@[y].1 as int),
        ) =~= parts.take(n - 1 - k));
        let ghost before = ancestors.deep_view();
        let ghost jv = joined@;
        assert(jv == join_slash(parts.take(n - 1 - k)));
        ancestors.push(joined);
        assert(ancestors.deep_view() =~= before.push(jv));
        assert(ancestors.deep_view() =~= Seq::new(
            (k + 1) as nat,
            |x: int| join_slash(parts.take(n - 1 - x)),
        ));
        k = k + 1;
    }
    ancestors
}


// ---- re-checking a node against what the plan expects ----

/// What stands at an action's leaf, as far as a re-check reads it.
#[derive(Debug)]
pub enum Leaf {
    /// Nothing.
    Absent,
    /// A regular file, by the hash of its bytes and its executable bit.
    File { hash: String, executable: bool },
    /// A symlink, by the hash of its raw target.
    Symlink { hash: String },
    /// The bytes of a regular file read as a block's container.
    Container { bytes: Vec<u8> },
    /// Anything else.
    Other,
}

/// Whether the node at a leaf is still the one `expected` describes: the same
/// kind, hash and executable bit; for a block, its container holding the
/// marker on exactly one line with a region hashing as expected.
pub open spec fn leaf_holds(expected: SignatureView, leaf: Leaf) -> bool {
    match expected.kind {
        KindView::File => leaf matches Leaf::File { hash, executable } && hash@ == expected.hash
            && executable == expected.executable,
        KindView::Symlink => leaf matches Leaf::Symlink { hash } && hash@ == expected.hash,
        KindView::Block { marker, placement } => leaf matches Leaf::Container { bytes } && {
            let m = vstd::utf8::encode_utf8(marker);
            occurrence_total(bytes@, m) == 1 && spec_sha256_hex(region_body(bytes@, m, placement))
                == expected.hash
        },
    }
}

/// Re-checks the node at `path` against `expected`; any difference, absence
/// included, refuses as drift at `path`.
pub fn check_leaf(path: &str, expected: &NodeSignature, leaf: &Leaf) -> (checked: Result<(), Error>)
    ensures
        leaf_holds(expected@, *leaf) ==> checked is Ok,
        !leaf_holds(expected@, *leaf) ==> (checked matches Err(e) && is_drift_at(e, path@)),
{
    match (&expected.kind, leaf) {
        (EntryKind::File, Leaf::File { hash, executable }) => {
            if text_eq(hash.as_str(), expected.hash.as_str()) && *executable == expected.executable {
                Ok(())
            } else {
                Err(drift(path))
            }
        },
        (EntryKind::Symlink, Leaf::Symlink { hash }) => {
            if text_eq(hash.as_str(), expected.hash.as_str()) {
                Ok(())
            } else {
                Err(drift(path))
            }
        },
        (EntryKind::Block { marker, placement }, Leaf::Container { bytes }) => {
            proof {
                vstd::utf8::encode_utf8_decode_utf8(marker@);
            }
            check_region(path, bytes.as_slice(), marker.as_str(), *placement, expected.hash.as_str())
        },
        _ => Err(drift(path)),
    }
}

/// What a removal reports: a node it unlinked, or, expecting nothing, a
/// record it only forgot.
pub fn removal_outcome(expected: &Option<NodeSignature>) -> (outcome: crate::apply_report::ApplyOutcome)
    ensures
        outcome == if expected is Some {
            crate::apply_report::ApplyOutcome::Removed
        } else {
            crate::apply_report::ApplyOutcome::Forgot
        },
{
    match expected {
        Some(_) => crate::apply_report::ApplyOutcome::Removed,
        None => crate::apply_report::ApplyOutcome::Forgot,
    }
}

/// Whether a link may be published now: its target's resolution landed
/// inside the destination, and asked about no path at which the run is
/// still to publish a link, so nothing later can move where it lands.
pub fn link_may_publish(landed: bool, asked: &Vec<String>, unpublished: &Vec<String>) -> (publish: bool)
    ensures
        publish == (landed && forall|i: int|
            0 <= i < asked@.len() ==> !unpublished.deep_view().contains(#[trigger] asked@[i]@)),
{
    if !landed {
        return false;
    }
    let mut i: usize = 0;
    while i < asked.len()
        invariant
            i <= asked@.len(),
            forall|k: int| 0 <= k < i ==> !unpublished.deep_view().contains(#[trigger] asked@[k]@),
        decreases asked.len() - i,
    {
        if crate::snapshot::holds_text(unpublished, asked[i].as_str()) {
            return false;
        }
        i = i + 1;
    }
    true
}

/// The end of one settling pass over `pending` links: a pass that held
/// every one of them published nothing, and nothing later will change that,
/// so each link still waiting, with its target, is refused as pointing
/// outside the destination.
pub fn settling_stalled(pending: usize, held: Vec<(String, String)>, origin: &Origin) -> (stalled: Result<
    Vec<(String, String)>,
    Error,
>)
    ensures
        held@.len() == pending ==> (stalled matches Err(Error::Refused(Refused::ExternalTarget { links, origin: o }))
            && links@ == held@ && o@ == origin@),
        held@.len() != pending ==> stalled == Ok::<Vec<(String, String)>, Error>(held),
{
    if held.len() == pending {
        Err(Error::Refused(Refused::ExternalTarget { links: held, origin: origin.duplicate() }))
    } else {
        Ok(held)
    }
}

} // verus!

verus! {

use crate::apply_report::ApplyOutcome as O;

/// The record `record` leaves at `path` for `entry` under `owner`.
pub open spec fn written_record_at(before: Manifest, path: Seq<char>, entry: EntryView, owner: Seq<char>) -> RecordView {
    RecordView {
        kind: entry.kind(),
        hash: crate::decide::spec_desired_hash(entry),
        executable: crate::decide::spec_desired_executable(entry),
        owners: owners_after(before.record(path), owner),
    }
}

/// What the manifest holds at `path` once `action` took effect there for
/// `owner`, and what the run reports: a removal drops the record, a write,
/// overwrite or skip records the entry (a skip as the node it re-checked)
/// with `owner` among its owners, a release drops `owner` alone, and the
/// rest leave it. `adopted` is whether a block write found its region
/// already carrying the body.
pub open spec fn settled(
    before: Manifest,
    after: Manifest,
    path: Seq<char>,
    action: ActionView,
    owner: Seq<char>,
    adopted: bool,
    outcome: Option<crate::apply_report::ApplyOutcome>,
) -> bool {
    &&& after.version == before.version
    &&& forall|p: Seq<char>| p != path ==> after.record(p) == before.record(p)
    &&& match action {
        ActionView::Remove { expected } => after.record(path) is None && outcome == Some(
            if expected is Some {
                O::Removed
            } else {
                O::Forgot
            },
        ),
        ActionView::RemoveDirectory => after.record(path) is None && outcome == Some(O::Removed),
        ActionView::Write { entry } => after.record(path) == Some(
            written_record_at(before, path, entry, owner),
        ) && outcome == Some(
            if adopted && entry is Block {
                O::Skipped
            } else {
                O::Written
            },
        ),
        ActionView::Overwrite { entry, .. } | ActionView::OverwriteDirectory { entry } => after.record(
            path,
        ) == Some(written_record_at(before, path, entry, owner)) && outcome == Some(O::Overwritten),
        ActionView::Skip { expected, .. } => after.record(path) == Some(
            RecordView {
                kind: expected.kind,
                hash: expected.hash,
                executable: expected.executable,
                owners: owners_after(before.record(path), owner),
            },
        ) && outcome == Some(O::Skipped),
        ActionView::Release => outcome == Some(O::Released) && match before.record(path) {
            None => after.record(path) is None,
            Some(r) => {
                let left = crate::decide::others_than(r.owners, owner);
                if left.len() == 0 {
                    after.record(path) is None
                } else {
                    after.record(path) == Some(RecordView { owners: left, ..r })
                }
            },
        },
        ActionView::NotRecorded => after.record(path) == before.record(path) && outcome == Some(
            O::NotRecorded,
        ),
        ActionView::Refuse { .. } => after.record(path) == before.record(path) && outcome is None,
    }
}

/// Settles one action a run carried out at `path` for `owner`: the record
/// the manifest keeps for it and the outcome the run reports (see
/// [`settled`]). A refusal settles nothing and reports nothing.
pub fn settle_action(
    manifest: &mut Manifest,
    path: &str,
    action: &Action,
    owner: &str,
    adopted: bool,
) -> (outcome: Option<crate::apply_report::ApplyOutcome>)
    requires
        old(manifest).wf(),
    ensures
        final(manifest).wf(),
        settled(*old(manifest), *final(manifest), path@, action@, owner@, adopted, outcome),
{
    match action {
        Action::Remove { expected } => {
            manifest.remove(path);
            Some(removal_outcome(expected))
        },
        Action::RemoveDirectory => {
            manifest.remove(path);
            Some(O::Removed)
        },
        Action::Write { entry } => {
            record(manifest, path, entry, owner);
            let is_block = match entry {
                Entry::Block { .. } => true,
                _ => false,
            };
            if adopted && is_block {
                Some(O::Skipped)
            } else {
                Some(O::Written)
            }
        },
        Action::Overwrite { entry, .. } => {
            record(manifest, path, entry, owner);
            Some(O::Overwritten)
        },
        Action::OverwriteDirectory { entry } => {
            record(manifest, path, entry, owner);
            Some(O::Overwritten)
        },
        Action::Skip { expected, .. } => {
            record_skip(manifest, path, expected, owner);
            Some(O::Skipped)
        },
        Action::Release => {
            release(manifest, path, owner);
            Some(O::Released)
        },
        Action::NotRecorded => Some(O::NotRecorded),
        Action::Refuse { .. } => None,
    }
}

} // verus!
