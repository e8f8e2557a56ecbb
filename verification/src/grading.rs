//! Grading a desired symlink's target against the destination as it will
//! stand after the run: the desired tree first, then the locations the run
//! vacates, then what the walk observed.

use vstd::prelude::*;

use crate::containment::{
    chain_advance, join_slash, join_texts, spec_target_unresolvable, split_slash, ChainStep,
    ChainStepView, ChainWalk, Hop,
};
use crate::decide::Observation;
use crate::entry::{Entry, EntryView};
use crate::snapshot::{observed_at, Observations};
use crate::text::text_eq;

verus! {

/// The entry the last pair of `admitted` at `p` carries, if any does.
pub open spec fn admitted_at(admitted: Seq<(String, Entry)>, p: Seq<char>) -> Option<EntryView>
    decreases admitted.len(),
{
    if admitted.len() == 0 {
        None
    } else if admitted.last().0@ == p {
        Some(admitted.last().1@)
    } else {
        admitted_at(admitted.drop_last(), p)
    }
}

/// The mathematical value of a [`Hop`].
pub enum HopView {
    Terminal,
    Link(Seq<char>),
    Unresolvable,
}

/// The value of `hop`.
pub open spec fn hop_view(hop: Hop) -> HopView {
    match hop {
        Hop::Terminal => HopView::Terminal,
        Hop::Link(t) => HopView::Link(t@),
        Hop::Unresolvable => HopView::Unresolvable,
    }
}

/// What will stand at `path` once the run finishes: a desired entry first,
/// then nothing where the run vacates it, then what the walk observed.
pub open spec fn spec_planned_hop(
    admitted: Seq<(String, Entry)>,
    paths: Seq<(String, Observation)>,
    path: Seq<char>,
    vacated: Seq<Seq<char>>,
) -> HopView {
    match admitted_at(admitted, path) {
        Some(EntryView::Symlink { target }) => HopView::Link(target),
        Some(_) => HopView::Terminal,
        None => if vacated.contains(path) {
            HopView::Terminal
        } else {
            match observed_at(paths, path) {
                Some(Observation::Symlink { target: Some(t), .. }) => HopView::Link(t@),
                Some(Observation::Symlink { target: None, .. }) => HopView::Unresolvable,
                _ => HopView::Terminal,
            }
        },
    }
}

/// The entry `admitted` holds at `path`.
fn admitted_entry<'a>(admitted: &'a Vec<(String, Entry)>, path: &str) -> (found: Option<&'a Entry>)
    ensures
        match found {
            Some(e) => admitted_at(admitted@, path@) == Some(e@),
            None => admitted_at(admitted@, path@) is None,
        },
{
    let mut i = admitted.len();
    assert(admitted@.take(i as int) =~= admitted@);
    while i > 0
        invariant
            i <= admitted@.len(),
            admitted_at(admitted@, path@) == admitted_at(admitted@.take(i as int), path@),
        decreases i,
    {
        proof {
            assert(admitted@.take(i as int).drop_last() =~= admitted@.take(i - 1));
            assert(admitted@.take(i as int).last() == admitted@[i - 1]);
        }
        if text_eq(admitted[i - 1].0.as_str(), path) {
            return Some(&admitted[i - 1].1);
        }
        i = i - 1;
    }
    None
}

/// What will stand at `path` once the run finishes.
pub fn planned_hop(
    admitted: &Vec<(String, Entry)>,
    observations: &Observations,
    path: &str,
    vacated: &Vec<String>,
) -> (hop: Hop)
    ensures
        hop_view(hop) == spec_planned_hop(admitted@, observations.paths@, path@, vacated.deep_view()),
{
    match admitted_entry(admitted, path) {
        Some(Entry::Symlink { target }) => return Hop::Link(target.clone()),
        Some(_) => return Hop::Terminal,
        None => {},
    }
    match crate::manifest::position_of(vacated, path) {
        Some(i) => {
            assert(vacated.deep_view()[i as int] == path@);
            return Hop::Terminal;
        },
        None => {},
    }
    match observations.at(path) {
        Some(Observation::Symlink { target: Some(t), .. }) => Hop::Link(t.clone()),
        Some(Observation::Symlink { target: None, .. }) => Hop::Unresolvable,
        _ => Hop::Terminal,
    }
}

/// Runs the resolution protocol for at most `fuel` steps with every hop
/// answered by what will stand there: `Some` of whether it lands inside the
/// destination, or `None` where the fuel ran out first.
pub open spec fn chain_run(
    admitted: Seq<(String, Entry)>,
    paths: Seq<(String, Observation)>,
    vacated: Seq<Seq<char>>,
    walked: Seq<Seq<char>>,
    remaining: Seq<Seq<char>>,
    visited: Seq<Seq<char>>,
    fuel: nat,
) -> Option<bool>
    decreases fuel,
{
    if fuel == 0 {
        None
    } else {
        let (step, w, r) = chain_advance(walked, remaining);
        match step {
            ChainStepView::Landed(_) => Some(true),
            ChainStepView::Outside => Some(false),
            ChainStepView::Ask(here) => match spec_planned_hop(admitted, paths, here, vacated) {
                HopView::Terminal => chain_run(admitted, paths, vacated, w, r, visited, (fuel - 1) as nat),
                HopView::Unresolvable => Some(false),
                HopView::Link(t) => if visited.contains(here) {
                    Some(false)
                } else if spec_target_unresolvable(t) {
                    Some(false)
                } else {
                    chain_run(
                        admitted,
                        paths,
                        vacated,
                        w.drop_last(),
                        split_slash(t) + r,
                        visited.push(here),
                        (fuel - 1) as nat,
                    )
                },
            },
        }
    }
}

/// Whether the symlink target `target` of the link at `link` lands inside
/// the destination, resolved from the link's parent through the links the
/// destination will hold once the run finishes.
pub open spec fn spec_resolves_in_dest(
    link: Seq<char>,
    target: Seq<char>,
    admitted: Seq<(String, Entry)>,
    paths: Seq<(String, Observation)>,
    vacated: Seq<Seq<char>>,
) -> bool {
    !spec_target_unresolvable(target) && exists|fuel: nat|
        #[trigger] chain_run(
            admitted,
            paths,
            vacated,
            crate::containment::nonempty_components(split_slash(join_slash(split_slash(link).drop_last()))),
            split_slash(target),
            Seq::empty(),
            fuel,
        ) == Some(true)
}

/// Every path a resolution can follow a link at: one the desired tree or the
/// walk names.
pub open spec fn link_points(admitted: Seq<(String, Entry)>, paths: Seq<(String, Observation)>) -> Seq<
    Seq<char>,
> {
    Seq::new(admitted.len(), |i: int| admitted[i].0@) + Seq::new(paths.len(), |i: int| paths[i].0@)
}

/// A path whose planned hop is a link is one the desired tree or the walk
/// names.
proof fn lemma_links_are_named(
    admitted: Seq<(String, Entry)>,
    paths: Seq<(String, Observation)>,
    path: Seq<char>,
    vacated: Seq<Seq<char>>,
)
    requires
        spec_planned_hop(admitted, paths, path, vacated) is Link,
    ensures
        link_points(admitted, paths).contains(path),
{
    let keys = link_points(admitted, paths);
    if admitted_at(admitted, path) is Some {
        let i = lemma_admitted_at_listed(admitted, path);
        assert(keys[i] == path);
    } else {
        let i = lemma_observed_at_listed(paths, path);
        assert(keys[admitted.len() + i] == path);
    }
}

/// An entry found at `p` is listed at `p`.
proof fn lemma_admitted_at_listed(admitted: Seq<(String, Entry)>, p: Seq<char>) -> (i: int)
    requires
        admitted_at(admitted, p) is Some,
    ensures
        0 <= i < admitted.len(),
        admitted[i].0@ == p,
    decreases admitted.len(),
{
    if admitted.last().0@ == p {
        admitted.len() - 1
    } else {
        let i = lemma_admitted_at_listed(admitted.drop_last(), p);
        i
    }
}

/// An observation found at `p` is listed at `p`.
proof fn lemma_observed_at_listed(paths: Seq<(String, Observation)>, p: Seq<char>) -> (i: int)
    requires
        observed_at(paths, p) is Some,
    ensures
        0 <= i < paths.len(),
        paths[i].0@ == p,
    decreases paths.len(),
{
    if paths.last().0@ == p {
        paths.len() - 1
    } else {
        let i = lemma_observed_at_listed(paths.drop_last(), p);
        i
    }
}

/// Distinct paths drawn from `keys` are no more than `keys` holds.
proof fn lemma_distinct_within(s: Seq<Seq<char>>, keys: Seq<Seq<char>>)
    requires
        s.no_duplicates(),
        forall|i: int| 0 <= i < s.len() ==> keys.contains(#[trigger] s[i]),
    ensures
        s.len() <= keys.len(),
{
    s.unique_seq_to_set();
    keys.lemma_cardinality_of_set();
    assert(s.to_set().subset_of(keys.to_set())) by {
        assert forall|x: Seq<char>| s.to_set().contains(x) implies keys.to_set().contains(x) by {
            let i = choose|i: int| 0 <= i < s.len() && s[i] == x;
            assert(keys.contains(s[i]));
        }
    }
    vstd::set_lib::lemma_len_subset(s.to_set(), keys.to_set());
}

/// The parent directory of the link at `link`: its components but the last.
fn link_parent(link: &str) -> (parent: String)
    ensures
        parent@ == join_slash(split_slash(link@).drop_last()),
{
    let chars = crate::containment::chars_of(link);
    let pieces = crate::containment::slash_pieces(&chars);
    let mut texts = crate::containment::piece_texts(&chars, link, &pieces);
    assert(texts.deep_view() =~= split_slash(link@));
    proof {
        crate::containment::lemma_split_slash_nonempty(link@);
    }
    let ghost all = texts.deep_view();
    texts.pop();
    assert(texts.deep_view() =~= all.drop_last());
    join_texts(&texts)
}

/// Whether the symlink target `target` of the desired link at `link` lands
/// inside the destination once the run finishes: resolved from the link's
/// parent through the links the desired tree, the vacated locations and the
/// observed destination will hold, and outside wherever a link is met twice.
pub fn target_resolves_in_dest(
    link: &str,
    target: &str,
    admitted: &Vec<(String, Entry)>,
    observations: &Observations,
    vacated: &Vec<String>,
) -> (inside: bool)
    ensures
        inside == spec_resolves_in_dest(link@, target@, admitted@, observations.paths@, vacated.deep_view()),
{
    let parent = link_parent(link);
    let ghost start_walked = crate::containment::nonempty_components(split_slash(parent@));
    let ghost keys = link_points(admitted@, observations.paths@);
    let ghost vac = vacated.deep_view();
    let mut walk = match ChainWalk::new(parent.as_str(), target) {
        Some(w) => w,
        None => return false,
    };
    let ghost mut steps: nat = 0;
    let ghost init = (start_walked, split_slash(target@));
    assert(walk.visited.deep_view() =~= Seq::<Seq<char>>::empty());
    loop
        invariant
            vac == vacated.deep_view(),
            keys == link_points(admitted@, observations.paths@),
            init == (start_walked, split_slash(target@)),
            start_walked == crate::containment::nonempty_components(
                split_slash(join_slash(split_slash(link@).drop_last())),
            ),
            !spec_target_unresolvable(target@),
            walk.visited.deep_view().no_duplicates(),
            forall|i: int| 0 <= i < walk.visited@.len() ==> keys.contains(#[trigger] walk.visited.deep_view()[i]),
            forall|f: nat|
                #[trigger] chain_run(admitted@, observations.paths@, vac, init.0, init.1, Seq::empty(), f)
                    == if f <= steps {
                    None
                } else {
                    chain_run(
                        admitted@,
                        observations.paths@,
                        vac,
                        walk.walked.deep_view(),
                        walk.remaining.deep_view(),
                        walk.visited.deep_view(),
                        (f - steps) as nat,
                    )
                },
        decreases keys.len() - walk.visited@.len(), walk.remaining@.len(),
    {
        proof {
            lemma_distinct_within(walk.visited.deep_view(), keys);
            crate::containment::lemma_advance_consumes(walk.walked.deep_view(), walk.remaining.deep_view());
            crate::containment::lemma_ask_names_walked(walk.walked.deep_view(), walk.remaining.deep_view());
        }
        let ghost w0 = walk.walked.deep_view();
        let ghost r0 = walk.remaining.deep_view();
        let ghost v0 = walk.visited.deep_view();
        let step = walk.next();
        match step {
            ChainStep::Landed(_) => {
                proof {
                    assert(chain_run(admitted@, observations.paths@, vac, init.0, init.1, Seq::empty(), steps + 1)
                        == Some(true));
                }
                return true;
            },
            ChainStep::Outside => {
                proof {
                    assert forall|fuel: nat| #[trigger] chain_run(admitted@, observations.paths@, vac, init.0, init.1, Seq::empty(), fuel) != Some(true) by {
                        if fuel > steps {
                            assert(chain_run(admitted@, observations.paths@, vac, w0, r0, v0, (fuel - steps) as nat) == Some(false));
                        }
                    }
                }
                return false;
            },
            ChainStep::Ask(here) => {
                let hop = planned_hop(admitted, observations, here.as_str(), vacated);
                let ghost hv = hop_view(hop);
                proof {
                    if hv is Link {
                        lemma_links_are_named(admitted@, observations.paths@, here@, vac);
                    }
                }
                let going = walk.answer(hop);
                if !going {
                    proof {
                        assert forall|fuel: nat| #[trigger] chain_run(admitted@, observations.paths@, vac, init.0, init.1, Seq::empty(), fuel) != Some(true) by {
                            if fuel > steps {
                                assert(chain_run(admitted@, observations.paths@, vac, w0, r0, v0, (fuel - steps) as nat) == Some(false));
                            }
                        }
                    }
                    return false;
                }
                proof {
                    assert forall|f: nat|
                        #[trigger] chain_run(admitted@, observations.paths@, vac, init.0, init.1, Seq::empty(), f)
                            == if f <= steps + 1 {
                            None
                        } else {
                            chain_run(
                                admitted@,
                                observations.paths@,
                                vac,
                                walk.walked.deep_view(),
                                walk.remaining.deep_view(),
                                walk.visited.deep_view(),
                                (f - (steps + 1)) as nat,
                            )
                        } by {
                        if f > steps {
                            assert(chain_run(admitted@, observations.paths@, vac, w0, r0, v0, (f - steps) as nat)
                                == chain_run(
                                admitted@,
                                observations.paths@,
                                vac,
                                walk.walked.deep_view(),
                                walk.remaining.deep_view(),
                                walk.visited.deep_view(),
                                (f - (steps + 1)) as nat,
                            ));
                        }
                    }
                    if hv is Link {
                        assert(walk.visited.deep_view() == v0.push(here@));
                        assert(!v0.contains(here@));
                        assert forall|i: int, j: int| 0 <= i < walk.visited.deep_view().len() && 0 <= j < walk.visited.deep_view().len() && i != j implies walk.visited.deep_view()[i] != walk.visited.deep_view()[j] by {
                            if j == v0.len() {
                                assert(v0.contains(v0[i]));
                            }
                            if i == v0.len() {
                                assert(v0.contains(v0[j]));
                            }
                        }
                    }
                    if hv is Link {
                        lemma_distinct_within(walk.visited.deep_view(), keys);
                        assert(walk.visited@.len() == v0.len() + 1);
                    } else {
                        assert(walk.visited@.len() == v0.len());
                        assert(walk.remaining@.len() == walk.remaining.deep_view().len());
                        assert(walk.remaining.deep_view().len() < r0.len());
                    }
                    steps = steps + 1;
                }
            },
        }
    }
}


/// The refusal a desired symlink's own target earns, judged once its
/// ancestry is admitted: a target that is not a pathname at all, or, unless
/// the caller allows pointers out of the destination, one that does not land
/// inside it once the run finishes.
pub open spec fn spec_target_refusal(
    link: Seq<char>,
    entry: EntryView,
    admitted: Seq<(String, Entry)>,
    paths: Seq<(String, Observation)>,
    vacated: Seq<Seq<char>>,
    policy: crate::decide::ExternalTargetPolicy,
) -> Option<crate::refusal::RefusalView> {
    match entry {
        EntryView::Symlink { target } => if !crate::act::spec_is_pathname(target) {
            Some(crate::refusal::RefusalView::InvalidTarget { target })
        } else if policy == crate::decide::ExternalTargetPolicy::Refuse && !spec_resolves_in_dest(
            link,
            target,
            admitted,
            paths,
            vacated,
        ) {
            Some(crate::refusal::RefusalView::ExternalTarget { target })
        } else {
            None
        },
        _ => None,
    }
}

/// The refusal a desired symlink's own target earns.
pub fn target_refusal(
    link: &str,
    entry: &Entry,
    admitted: &Vec<(String, Entry)>,
    observations: &Observations,
    vacated: &Vec<String>,
    policy: crate::decide::ExternalTargetPolicy,
) -> (refusal: Option<crate::refusal::Refusal>)
    ensures
        match refusal {
            Some(r) => spec_target_refusal(link@, entry@, admitted@, observations.paths@, vacated.deep_view(), policy)
                == Some(r@),
            None => spec_target_refusal(link@, entry@, admitted@, observations.paths@, vacated.deep_view(), policy)
                is None,
        },
{
    let target = match entry {
        Entry::Symlink { target } => target,
        _ => return None,
    };
    if !crate::containment::is_pathname(target.as_str()) {
        return Some(crate::refusal::Refusal::InvalidTarget { target: target.clone() });
    }
    let refusing = match policy {
        crate::decide::ExternalTargetPolicy::Refuse => true,
        crate::decide::ExternalTargetPolicy::Allow => false,
    };
    if refusing && !target_resolves_in_dest(link, target.as_str(), admitted, observations, vacated) {
        return Some(crate::refusal::Refusal::ExternalTarget { target: target.clone() });
    }
    None
}

} // verus!
