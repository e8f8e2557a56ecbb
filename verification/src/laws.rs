//! What the deciding and running rules promise, stated over their inputs:
//! what an orphan's action is, which actions a run carries out, why a clean
//! path is overwritten, which recorded paths a removal judges, and when a
//! symlink's target is refused.

use vstd::prelude::*;

use crate::act::{indices_in, spec_is_pathname, spec_phase, Phase};
use crate::claims::{spec_orphan_verdict, OrphanVerdict};
use crate::containment::{chain_advance, join_slash, nonempty_components, spec_contained_normalize, split_slash};
use crate::decide::{
    spec_clean_overwrite_reason, spec_orphan_action, ActionView, DriftPolicy, ExternalTargetPolicy,
    Observation, OverwriteReason, PathState, SignatureView,
};
use crate::entry::{Entry, EntryView, KindView};
use crate::grading::{chain_run, spec_resolves_in_dest, spec_target_refusal};
use crate::hash::spec_sha256_hex;
use crate::manifest::RecordView;
use crate::refusal::RefusalView;
use crate::snapshot::{spec_in_state, spec_overlaps_state};

verus! {

// ---- orphans ----

/// An orphan the disk still holds as recorded is removed, the run expecting
/// exactly the recorded node (its kind, hash and executable bit); an orphan
/// already gone only loses its record; a drifted one is refused unless the
/// policy lifts it, and then it is removed expecting the node found. An
/// orphan is never released, written, skipped or left recorded.
pub proof fn lemma_orphans_are_removed_as_recorded(
    recorded: RecordView,
    observation: Option<Observation>,
    state: PathState,
    policy: DriftPolicy,
)
    requires
        state != PathState::Foreign,
        state == PathState::Drifted ==> observation is Some,
    ensures
        ({
            let action = spec_orphan_action(recorded, observation, state, policy);
            &&& state == PathState::Clean ==> action == (ActionView::Remove {
                expected: Some(
                    SignatureView {
                        kind: recorded.kind,
                        hash: recorded.hash,
                        executable: recorded.executable,
                    },
                ),
            })
            &&& state == PathState::Missing ==> action == (ActionView::Remove { expected: None })
            &&& state == PathState::Drifted && policy == DriftPolicy::Refuse ==> action == (
            ActionView::Refuse { refusal: RefusalView::Drift })
            &&& state == PathState::Drifted ==> (action matches ActionView::Remove { expected: Some(_) }
                || action == (ActionView::Refuse { refusal: RefusalView::Drift }))
            &&& action is Remove || action is Refuse
            &&& !(action is Release)
        }),
{
}

/// A drifted orphan the policy lifts is removed expecting the node the walk
/// saw: a file by its hash and executable bit, a symlink by its target's hash.
pub proof fn lemma_lifted_orphans_expect_the_node_found(
    recorded: RecordView,
    observation: Observation,
)
    requires
        !(recorded.kind is Block),
    ensures
        observation matches Observation::File { hash, executable } ==> spec_orphan_action(
            recorded,
            Some(observation),
            PathState::Drifted,
            DriftPolicy::Overwrite,
        ) == (ActionView::Remove {
            expected: Some(SignatureView { kind: KindView::File, hash: hash@, executable }),
        }),
        observation matches Observation::Symlink { hash, .. } ==> spec_orphan_action(
            recorded,
            Some(observation),
            PathState::Drifted,
            DriftPolicy::Overwrite,
        ) == (ActionView::Remove {
            expected: Some(SignatureView { kind: KindView::Symlink, hash: hash@, executable: false }),
        }),
        (observation is Directory || observation is Other || observation is Absent) ==> spec_orphan_action(
            recorded,
            Some(observation),
            PathState::Drifted,
            DriftPolicy::Overwrite,
        ) == (ActionView::Refuse { refusal: RefusalView::Drift }),
{
}

/// A drifted block orphan the policy lifts is removed expecting the region
/// its marker identifies on exactly one line; a container that identifies
/// no region is refused as drifted.
pub proof fn lemma_lifted_block_orphans_expect_the_region_found(
    recorded: RecordView,
    observation: Observation,
)
    requires
        recorded.kind is Block,
    ensures
        observation matches Observation::Block { hash: Some(h), occurrences, .. } ==> (occurrences == 1
            ==> spec_orphan_action(recorded, Some(observation), PathState::Drifted, DriftPolicy::Overwrite)
            == (ActionView::Remove {
            expected: Some(SignatureView { kind: recorded.kind, hash: h@, executable: false }),
        })),
        !(observation matches Observation::Block { hash: Some(_), occurrences: 1, .. })
            ==> spec_orphan_action(recorded, Some(observation), PathState::Drifted, DriftPolicy::Overwrite)
            == (ActionView::Refuse { refusal: RefusalView::Drift }),
{
}

// ---- which actions a run carries out ----

/// Only a refusal is left untouched: a removal runs with the removals, a
/// write or overwrite of a symlink with the links, of anything else with the
/// steps, and a skip with the link skips exactly when it re-checks a symlink.
pub proof fn lemma_only_refusals_are_untouched(action: ActionView)
    ensures
        (spec_phase(action) == Phase::Untouched) <==> action is Refuse,
        (action is Remove || action is RemoveDirectory) <==> spec_phase(action) == Phase::Removal,
        action matches ActionView::Write { entry } ==> spec_phase(action) == if entry is Symlink {
            Phase::Link
        } else {
            Phase::Step
        },
        action matches ActionView::Overwrite { entry, .. } ==> spec_phase(action) == if entry is Symlink {
            Phase::Link
        } else {
            Phase::Step
        },
        action matches ActionView::OverwriteDirectory { .. } ==> spec_phase(action) == Phase::Step,
        action matches ActionView::Skip { expected, .. } ==> spec_phase(action) == if expected.kind
            == KindView::Symlink {
            Phase::LinkSkip
        } else {
            Phase::Step
        },
        (action is Release || action is NotRecorded) ==> spec_phase(action) == Phase::Step,
{
}

/// An index is listed under a phase exactly when its action runs in it.
pub proof fn lemma_indices_in_lists_its_phase(actions: Seq<(Seq<char>, ActionView)>, p: Phase, i: int)
    requires
        0 <= i < actions.len(),
        actions.len() <= usize::MAX,
    ensures
        indices_in(actions, p).contains(i as usize) <==> spec_phase(actions[i].1) == p,
    decreases actions.len(),
{
    let before = actions.drop_last();
    let last = (actions.len() - 1) as usize;
    lemma_indices_in_bounded(before, p);
    if i < actions.len() - 1 {
        lemma_indices_in_lists_its_phase(before, p, i);
        assert(before[i] == actions[i]);
        if spec_phase(actions.last().1) == p {
            let l = indices_in(before, p).push(last);
            if l.contains(i as usize) {
                let k = choose|k: int| 0 <= k < l.len() && l[k] == i as usize;
                if k < l.len() - 1 {
                    assert(indices_in(before, p)[k] == i as usize);
                }
            }
            if indices_in(before, p).contains(i as usize) {
                let k = choose|k: int| 0 <= k < indices_in(before, p).len() && indices_in(before, p)[k] == i as usize;
                assert(l[k] == i as usize);
            }
        }
    } else {
        if spec_phase(actions.last().1) == p {
            assert(indices_in(actions, p).last() == last);
        } else {
            if indices_in(before, p).contains(last) {
                let k = choose|k: int| 0 <= k < indices_in(before, p).len() && indices_in(before, p)[k] == last;
                assert(indices_in(before, p)[k] < before.len());
            }
        }
    }
}

/// Every index a phase lists is an index of the plan.
proof fn lemma_indices_in_bounded(actions: Seq<(Seq<char>, ActionView)>, p: Phase)
    requires
        actions.len() <= usize::MAX,
    ensures
        forall|k: int| 0 <= k < indices_in(actions, p).len() ==> #[trigger] indices_in(actions, p)[k] < actions.len(),
    decreases actions.len(),
{
    if actions.len() > 0 {
        let before = actions.drop_last();
        lemma_indices_in_bounded(before, p);
        let l = indices_in(actions, p);
        assert forall|k: int| 0 <= k < l.len() implies #[trigger] l[k] < actions.len() by {
            if k < indices_in(before, p).len() {
                assert(l[k] == indices_in(before, p)[k]);
            }
        }
    }
}

/// A run carries out every action of a plan but its refusals, each exactly
/// once: an index that is not a refusal is listed by exactly one of the
/// removal, step, link and link-skip passes, and a refusal by none.
pub proof fn lemma_every_action_but_a_refusal_runs_once(actions: Seq<(Seq<char>, ActionView)>, i: int)
    requires
        0 <= i < actions.len(),
        actions.len() <= usize::MAX,
    ensures
        ({
            let listed = |p: Phase| if indices_in(actions, p).contains(i as usize) {
                1int
            } else {
                0int
            };
            &&& actions[i].1 is Refuse ==> listed(Phase::Removal) + listed(Phase::Step) + listed(Phase::Link)
                + listed(Phase::LinkSkip) == 0
            &&& !(actions[i].1 is Refuse) ==> listed(Phase::Removal) + listed(Phase::Step) + listed(
                Phase::Link,
            ) + listed(Phase::LinkSkip) == 1
        }),
{
    lemma_indices_in_lists_its_phase(actions, Phase::Removal, i);
    lemma_indices_in_lists_its_phase(actions, Phase::Step, i);
    lemma_indices_in_lists_its_phase(actions, Phase::Link, i);
    lemma_indices_in_lists_its_phase(actions, Phase::LinkSkip, i);
    lemma_only_refusals_are_untouched(actions[i].1);
}

// ---- why a clean path is overwritten ----

/// A clean path is overwritten for its executable bit alone exactly when the
/// desired entry is what was recorded in kind and bytes and differs only in
/// that bit; every other overwrite is for its content. A file is recorded by
/// the hash of its contents, and any other entry as not executable.
pub proof fn lemma_executable_changed_is_the_bit_alone(entry: EntryView, recorded: RecordView)
    ensures
        entry matches EntryView::File { contents, executable } ==> (spec_clean_overwrite_reason(
            entry,
            recorded,
        ) == OverwriteReason::ExecutableChanged <==> (recorded.kind == KindView::File && recorded.hash
            == spec_sha256_hex(contents) && recorded.executable != executable)),
        entry matches EntryView::Symlink { target } ==> (spec_clean_overwrite_reason(entry, recorded)
            == OverwriteReason::ExecutableChanged <==> (recorded.kind == KindView::Symlink
            && recorded.hash == spec_sha256_hex(vstd::utf8::encode_utf8(target)) && recorded.executable)),
        entry matches EntryView::Block { body, marker, placement } ==> (spec_clean_overwrite_reason(
            entry,
            recorded,
        ) == OverwriteReason::ExecutableChanged <==> (recorded.kind == (KindView::Block { marker, placement })
            && recorded.hash == spec_sha256_hex(body) && recorded.executable)),
        spec_clean_overwrite_reason(entry, recorded) == OverwriteReason::ExecutableChanged
            || spec_clean_overwrite_reason(entry, recorded) == OverwriteReason::ContentChanged,
{
}

// ---- which recorded paths a removal judges ----

/// A recorded path this owner alone holds, inside the destination, outside
/// the state subtree and no longer named by the desired tree, is judged
/// exactly when the removal covers it: a removal of everything covers every
/// such path, and one naming paths covers exactly those it names. A path
/// other owners also hold is only released, and one this owner does not
/// hold is no orphan of it.
pub proof fn lemma_removals_judge_exactly_what_they_cover(
    owner: Seq<char>,
    path: Seq<char>,
    recorded: RecordView,
    named: Seq<Seq<char>>,
    prefix: Option<Seq<char>>,
    judged: Option<Seq<Seq<char>>>,
)
    requires
        !named.contains(path),
        !spec_overlaps_state(path, prefix),
        spec_contained_normalize(path) == Some(path),
    ensures
        recorded.owners == seq![owner] && judged is None ==> spec_orphan_verdict(
            owner,
            path,
            recorded,
            named,
            prefix,
            judged,
        ) == OrphanVerdict::Judge,
        recorded.owners == seq![owner] && (judged matches Some(j) && j.contains(path))
            ==> spec_orphan_verdict(owner, path, recorded, named, prefix, judged) == OrphanVerdict::Judge,
        (judged matches Some(j) && !j.contains(path)) ==> spec_orphan_verdict(
            owner,
            path,
            recorded,
            named,
            prefix,
            judged,
        ) == OrphanVerdict::NotOrphan,
        !recorded.owners.contains(owner) ==> spec_orphan_verdict(owner, path, recorded, named, prefix, judged)
            == OrphanVerdict::NotOrphan,
        recorded.owners.contains(owner) && recorded.owners.len() > 1 && (judged is None || (judged matches Some(
            j,
        ) && j.contains(path))) ==> spec_orphan_verdict(owner, path, recorded, named, prefix, judged)
            == OrphanVerdict::Release,
{
    assert(spec_overlaps_state(path, prefix) || !spec_in_state(path, prefix));
    if recorded.owners == seq![owner] {
        assert(recorded.owners.contains(owner)) by {
            assert(recorded.owners[0] == owner);
        }
    }
}

/// A recorded path this owner holds and the removal covers, no longer named
/// by the desired tree, is never acted on inside the state subtree; one the
/// state subtree lies beneath, or one that is not a normalized path inside
/// the destination, is refused for containment.
pub proof fn lemma_removals_keep_out_of_the_state_and_the_outside(
    owner: Seq<char>,
    path: Seq<char>,
    recorded: RecordView,
    named: Seq<Seq<char>>,
    prefix: Option<Seq<char>>,
)
    requires
        !named.contains(path),
        recorded.owners.contains(owner),
    ensures
        spec_in_state(path, prefix) ==> spec_orphan_verdict(owner, path, recorded, named, prefix, None)
            == OrphanVerdict::NotOrphan,
        !spec_in_state(path, prefix) && (spec_overlaps_state(path, prefix) || spec_contained_normalize(path)
            != Some(path)) ==> spec_orphan_verdict(owner, path, recorded, named, prefix, None)
            == OrphanVerdict::Containment,
        named.push(path).contains(path) && spec_orphan_verdict(owner, path, recorded, named.push(path), prefix, None)
            == OrphanVerdict::NotOrphan,
{
    assert(named.push(path)[named.len() as int] == path);
}

// ---- when a symlink's target is refused ----

/// A symlink whose target is not a pathname is refused as such; under the
/// refusing policy, one whose target does not resolve inside the destination
/// is refused as pointing out of it; and a symlink passes only where its
/// target is a pathname and either the policy allows pointers out or the
/// target resolves inside. Entries that are not symlinks earn no refusal.
pub proof fn lemma_targets_leaving_the_destination_are_refused(
    link: Seq<char>,
    entry: EntryView,
    admitted: Seq<(String, Entry)>,
    paths: Seq<(String, Observation)>,
    vacated: Seq<Seq<char>>,
    policy: ExternalTargetPolicy,
)
    ensures
        !(entry is Symlink) ==> spec_target_refusal(link, entry, admitted, paths, vacated, policy) is None,
        entry matches EntryView::Symlink { target } ==> {
            let refusal = spec_target_refusal(link, entry, admitted, paths, vacated, policy);
            &&& !spec_is_pathname(target) ==> refusal == Some(RefusalView::InvalidTarget { target })
            &&& spec_is_pathname(target) && policy == ExternalTargetPolicy::Refuse && !spec_resolves_in_dest(
                link,
                target,
                admitted,
                paths,
                vacated,
            ) ==> refusal == Some(RefusalView::ExternalTarget { target })
            &&& refusal is None <==> (spec_is_pathname(target) && (policy == ExternalTargetPolicy::Allow
                || spec_resolves_in_dest(link, target, admitted, paths, vacated)))
        },
{
}

/// A target climbing out of the destination's root from a link at its top
/// level never resolves inside it, whatever the destination holds.
pub proof fn lemma_climbing_out_of_the_root_never_resolves(
    link: Seq<char>,
    target: Seq<char>,
    admitted: Seq<(String, Entry)>,
    paths: Seq<(String, Observation)>,
    vacated: Seq<Seq<char>>,
)
    requires
        split_slash(link).len() == 1,
        split_slash(target)[0] == seq!['.', '.'],
    ensures
        !spec_resolves_in_dest(link, target, admitted, paths, vacated),
{
    let parent = split_slash(link).drop_last();
    assert(parent =~= Seq::<Seq<char>>::empty());
    assert(join_slash(parent) =~= Seq::<char>::empty());
    assert(split_slash(Seq::<char>::empty()) == seq![Seq::<char>::empty()]);
    let one = seq![Seq::<char>::empty()];
    assert(one.drop_last() =~= Seq::<Seq<char>>::empty());
    assert(nonempty_components(Seq::<Seq<char>>::empty()) =~= Seq::<Seq<char>>::empty());
    assert(one.last().len() == 0);
    assert(nonempty_components(one) =~= Seq::<Seq<char>>::empty());
    let r = split_slash(target);
    crate::containment::lemma_split_slash_nonempty(target);
    let c = r[0];
    assert(c.len() == 2);
    assert(c != seq!['.']);
    assert(c == seq!['.', '.']);
    assert(chain_advance(Seq::empty(), r).0 == crate::containment::ChainStepView::Outside);
    assert forall|fuel: nat| #[trigger] chain_run(
        admitted,
        paths,
        vacated,
        Seq::empty(),
        r,
        Seq::empty(),
        fuel,
    ) != Some(true) by {}
    assert(nonempty_components(split_slash(join_slash(split_slash(link).drop_last()))) =~= Seq::<
        Seq<char>,
    >::empty());
}

/// A symlink at the destination's top level whose target (a pathname)
/// climbs out of the root is refused under the refusing policy, and passes only where the
/// policy allows pointers out.
pub proof fn lemma_top_level_links_climbing_out_are_refused(
    link: Seq<char>,
    target: Seq<char>,
    admitted: Seq<(String, Entry)>,
    paths: Seq<(String, Observation)>,
    vacated: Seq<Seq<char>>,
)
    requires
        split_slash(link).len() == 1,
        split_slash(target)[0] == seq!['.', '.'],
        !target.contains('\0'),
    ensures
        spec_target_refusal(
            link,
            EntryView::Symlink { target },
            admitted,
            paths,
            vacated,
            ExternalTargetPolicy::Refuse,
        ) == Some(RefusalView::ExternalTarget { target }),
        spec_target_refusal(
            link,
            EntryView::Symlink { target },
            admitted,
            paths,
            vacated,
            ExternalTargetPolicy::Allow,
        ) is None,
{
    lemma_climbing_out_of_the_root_never_resolves(link, target, admitted, paths, vacated);
    assert(target.len() > 0) by {
        if target.len() == 0 {
            assert(split_slash(target) == seq![Seq::<char>::empty()]);
        }
    }
    assert(spec_is_pathname(target));
}

} // verus!
