//! The first questions deciding asks of a desired tree: which location each
//! key claims, which claims collide or nest, and which keys are refused
//! before anything on disk is consulted.

use vstd::prelude::*;

use crate::archive::{insert_text, with_text};
use crate::containment::{contained_normalize, path_starts_with, spec_contained_normalize, spec_path_starts_with};
use crate::desired::Desired;
use crate::entry::{Entry, EntryView};
use crate::manifest::RecordView;
use crate::refusal::{Origin, OriginView, Refusal, RefusalView};
use crate::snapshot::{opt_view, overlaps_state, spec_overlaps_state};
use crate::text::text_eq;

verus! {

/// The location key `k` claims: its normalized form, unless it is refused
/// outright or touches the state subtree.
pub open spec fn claimed(k: Seq<char>, prefix: Option<Seq<char>>) -> Option<Seq<char>> {
    match spec_contained_normalize(k) {
        Some(n) => if spec_overlaps_state(n, prefix) {
            None
        } else {
            Some(n)
        },
        None => None,
    }
}

/// Whether `a` lies strictly above `n`.
pub open spec fn strictly_above(a: Seq<char>, n: Seq<char>) -> bool {
    spec_path_starts_with(n, a) && a != n
}

/// Whether the key listed `j` claims a location nested with `n`, either way.
pub open spec fn nests_with(keys: Seq<Seq<char>>, prefix: Option<Seq<char>>, j: int, n: Seq<char>) -> bool {
    match claimed(keys[j], prefix) {
        Some(m) => strictly_above(m, n) || strictly_above(n, m),
        None => false,
    }
}

/// Whether the key listed `j`, other than `i`, claims `n` too.
pub open spec fn shares(keys: Seq<Seq<char>>, prefix: Option<Seq<char>>, i: int, j: int, n: Seq<char>) -> bool {
    j != i && claimed(keys[j], prefix) == Some(n)
}

/// Whether the key listed `j` collides with a claim at `n` by the key listed
/// `i`: it claims `n` too, or a location nested with it.
pub open spec fn collides_at(keys: Seq<Seq<char>>, prefix: Option<Seq<char>>, i: int, j: int, n: Seq<char>) -> bool {
    shares(keys, prefix, i, j, n) || nests_with(keys, prefix, j, n)
}

/// The keys a claim at `n` by the key listed `i` collides with: the others
/// claiming `n`, and every key claiming a location nested with it.
pub open spec fn colliding(keys: Seq<Seq<char>>, prefix: Option<Seq<char>>, i: int, n: Seq<char>) -> Set<
    Seq<char>,
> {
    Set::new(
        |k: Seq<char>|
            exists|j: int|
                0 <= j < keys.len() && keys[j] == k && #[trigger] collides_at(keys, prefix, i, j, n),
    )
}

/// What became of a desired key.
#[derive(Debug)]
pub enum Fate {
    Admitted { location: String },
    Refused { refusal: Refusal },
}

/// Whether `fate` is what [`spec_fate`] says of the key listed `i`, a tree
/// conflict naming each colliding key once.
pub open spec fn fate_is(fate: Fate, keys: Seq<Seq<char>>, prefix: Option<Seq<char>>, i: int) -> bool {
    match claimed(keys[i], prefix) {
        None => fate matches Fate::Refused { refusal } && refusal@ == (RefusalView::Containment {
            through: None,
        }),
        Some(n) => {
            let c = colliding(keys, prefix, i, n);
            if c.len() == 0 {
                fate matches Fate::Admitted { location } && location@ == n
            } else {
                fate matches Fate::Refused { refusal: Refusal::TreeConflict { paths } }
                    && paths.deep_view().no_duplicates() && paths.deep_view().to_set() == c
            }
        },
    }
}

/// Adding a text to a sequence adds it to the set the sequence holds.
proof fn lemma_with_text_set(s: Seq<Seq<char>>, t: Seq<char>)
    ensures
        with_text(s, t).to_set() == s.to_set().insert(t),
{
    if !s.contains(t) {
        let p = s.push(t);
        assert forall|x: Seq<char>| p.to_set().contains(x) <==> s.to_set().insert(t).contains(x) by {
            if p.contains(x) {
                let k = choose|k: int| 0 <= k < p.len() && p[k] == x;
                if k < s.len() {
                    assert(s[k] == x);
                }
            }
            if s.contains(x) {
                let k = choose|k: int| 0 <= k < s.len() && s[k] == x;
                assert(p[k] == x);
            }
            if x == t {
                assert(p[s.len() as int] == t);
            }
        }
        assert(p.to_set() =~= s.to_set().insert(t));
    } else {
        assert(s.to_set() =~= s.to_set().insert(t));
    }
}

/// The location each of `keys` claims, normalized, or `None`.
fn claims_of(keys: &Vec<&String>, prefix: Option<&str>) -> (locations: Vec<Option<String>>)
    ensures
        locations@.len() == keys@.len(),
        forall|i: int|
            0 <= i < keys@.len() ==> match #[trigger] locations@[i] {
                Some(n) => claimed(keys@[i]@, opt_view(prefix)) == Some(n@),
                None => claimed(keys@[i]@, opt_view(prefix)) is None,
            },
{
    let mut locations: Vec<Option<String>> = Vec::new();
    let mut i: usize = 0;
    while i < keys.len()
        invariant
            i <= keys@.len(),
            locations@.len() == i,
            forall|k: int|
                0 <= k < i ==> match #[trigger] locations@[k] {
                    Some(n) => claimed(keys@[k]@, opt_view(prefix)) == Some(n@),
                    None => claimed(keys@[k]@, opt_view(prefix)) is None,
                },
        decreases keys.len() - i,
    {
        let location = match contained_normalize(keys[i].as_str()) {
            Some(n) => if overlaps_state(n.as_str(), prefix) {
                None
            } else {
                Some(n)
            },
            None => None,
        };
        locations.push(location);
        i = i + 1;
    }
    locations
}

/// Whether `a` lies strictly above `n`.
fn is_strictly_above(a: &str, n: &str) -> (above: bool)
    ensures
        above == strictly_above(a@, n@),
{
    path_starts_with(n, a) && !text_eq(a, n)
}

/// The fate of each desired key, in the order the tree lists its paths.
pub fn key_fates(desired: &Desired, prefix: Option<&str>) -> (fates: Vec<Fate>)
    ensures
        fates@.len() == desired.paths().len(),
        forall|i: int|
            0 <= i < fates@.len() ==> #[trigger] fate_is(fates@[i], desired.paths(), opt_view(prefix), i),
{
    let pairs = desired.iter();
    let mut keys: Vec<&String> = Vec::new();
    let mut i: usize = 0;
    while i < pairs.len()
        invariant
            i <= pairs@.len(),
            keys@.len() == i,
            forall|k: int| 0 <= k < i ==> (#[trigger] keys@[k])@ == pairs@[k].0@,
        decreases pairs.len() - i,
    {
        keys.push(pairs[i].0);
        i = i + 1;
    }
    let ghost kv = Seq::new(keys@.len(), |k: int| keys@[k]@);
    assert(kv =~= desired.paths());
    let ghost pv = opt_view(prefix);
    let locations = claims_of(&keys, prefix);
    let mut fates: Vec<Fate> = Vec::new();
    let mut i: usize = 0;
    while i < keys.len()
        invariant
            i <= keys@.len(),
            locations@.len() == keys@.len(),
            kv == Seq::new(keys@.len(), |k: int| keys@[k]@),
            pv == opt_view(prefix),
            forall|k: int|
                0 <= k < keys@.len() ==> match #[trigger] locations@[k] {
                    Some(n) => claimed(keys@[k]@, pv) == Some(n@),
                    None => claimed(keys@[k]@, pv) is None,
                },
            fates@.len() == i,
            forall|k: int| 0 <= k < i ==> #[trigger] fate_is(fates@[k], kv, pv, k),
        decreases keys.len() - i,
    {
        assert(kv[i as int] == keys@[i as int]@);
        match &locations[i] {
            None => {
                fates.push(Fate::Refused { refusal: Refusal::Containment { through: None } });
            },
            Some(n) => {
                let mut others: Vec<String> = Vec::new();
                let mut j: usize = 0;
                assert(others.deep_view() =~= Seq::<Seq<char>>::empty());
                while j < keys.len()
                    invariant
                        j <= keys@.len(),
                        i < keys@.len(),
                        locations@.len() == keys@.len(),
                        kv == Seq::new(keys@.len(), |k: int| keys@[k]@),
                        claimed(kv[i as int], pv) == Some(n@),
                        forall|k: int|
                            0 <= k < keys@.len() ==> match #[trigger] locations@[k] {
                                Some(m) => claimed(keys@[k]@, pv) == Some(m@),
                                None => claimed(keys@[k]@, pv) is None,
                            },
                        others.deep_view().no_duplicates(),
                        others.deep_view().to_set() == Set::new(
                            |k: Seq<char>|
                                exists|x: int|
                                    0 <= x < j && kv[x] == k && #[trigger] collides_at(kv, pv, i as int, x, n@),
                        ),
                    decreases keys.len() - j,
                {
                    let hit = match &locations[j] {
                        Some(m) => (j != i && text_eq(m.as_str(), n.as_str())) || is_strictly_above(m.as_str(), n.as_str())
                            || is_strictly_above(n.as_str(), m.as_str()),
                        None => false,
                    };
                    let ghost before = others.deep_view();
                    proof {
                        assert(kv[j as int] == keys@[j as int]@);
                        assert(hit == collides_at(kv, pv, i as int, j as int, n@));
                    }
                    if hit {
                        insert_text(&mut others, keys[j].clone());
                        proof {
                            lemma_with_text_set(before, kv[j as int]);
                        }
                    }
                    assert(others.deep_view().to_set() =~= Set::new(
                        |k: Seq<char>|
                            exists|x: int|
                                0 <= x < j + 1 && kv[x] == k && #[trigger] collides_at(kv, pv, i as int, x, n@),
                    )) by {
                        assert forall|k: Seq<char>| others.deep_view().to_set().contains(k) <==> (exists|x: int|
                            0 <= x < j + 1 && kv[x] == k && #[trigger] collides_at(kv, pv, i as int, x, n@)) by {
                            if others.deep_view().to_set().contains(k) {
                                if before.to_set().contains(k) {
                                    let x = choose|x: int| 0 <= x < j && kv[x] == k && #[trigger] collides_at(kv, pv, i as int, x, n@);
                                    assert(collides_at(kv, pv, i as int, x, n@));
                                } else {
                                    assert(k == kv[j as int]);
                                    assert(collides_at(kv, pv, i as int, j as int, n@));
                                }
                            }
                            if exists|x: int| 0 <= x < j + 1 && kv[x] == k && #[trigger] collides_at(kv, pv, i as int, x, n@) {
                                let x = choose|x: int| 0 <= x < j + 1 && kv[x] == k && #[trigger] collides_at(kv, pv, i as int, x, n@);
                                if x < j {
                                    assert(before.to_set().contains(k));
                                }
                            }
                        }
                    }
                    j = j + 1;
                }
                assert(others.deep_view().to_set() =~= colliding(kv, pv, i as int, n@));
                proof {
                    others.deep_view().unique_seq_to_set();
                }
                if others.len() == 0 {
                    assert(others.deep_view().to_set().len() == 0);
                    fates.push(Fate::Admitted { location: n.clone() });
                } else {
                    assert(others.deep_view().to_set().len() > 0);
                    fates.push(Fate::Refused { refusal: Refusal::TreeConflict { paths: others } });
                }
            },
        }
        i = i + 1;
    }
    fates
}


// ---- one physical node, one action ----

/// One claim on a location: where an action acts, the marker of the region
/// it owns there (none for a whole node), and the key it is filed under.
pub open spec fn claim_view(c: (String, Option<String>, String)) -> (Seq<char>, Option<Seq<char>>, Seq<char>) {
    (
        c.0@,
        match c.1 {
            Some(m) => Some(m@),
            None => None,
        },
        c.2@,
    )
}

/// Whether claim `d` contends with claim `c`: the same location under another
/// key, where either claims the whole node or both claim one marker's region.
pub open spec fn contends(
    c: (Seq<char>, Option<Seq<char>>, Seq<char>),
    d: (Seq<char>, Option<Seq<char>>, Seq<char>),
) -> bool {
    &&& d.0 == c.0
    &&& d.2 != c.2
    &&& (c.1 is None || d.1 is None || c.1 == d.1)
}

/// The keys of the claims contending with the claim listed `i`.
pub open spec fn contenders(claims: Seq<(String, Option<String>, String)>, i: int) -> Set<Seq<char>> {
    Set::new(
        |k: Seq<char>|
            exists|j: int|
                0 <= j < claims.len() && claim_view(claims[j]).2 == k && #[trigger] contends(
                    claim_view(claims[i]),
                    claim_view(claims[j]),
                ),
    )
}

/// Whether two optional markers are the same text.
fn same_marker(a: &Option<String>, b: &Option<String>) -> (same: bool)
    ensures
        same == (match a {
            Some(m) => Some(m@),
            None => None,
        } == match b {
            Some(m) => Some(m@),
            None => None,
        }),
{
    match (a, b) {
        (Some(x), Some(y)) => text_eq(x.as_str(), y.as_str()),
        (None, None) => true,
        _ => false,
    }
}

/// For each claim, the keys of the claims contending with it, each once: a
/// key with any is refused as a tree conflict naming them. Two region claims
/// at one container contend only over one marker; a whole-node claim
/// contends with every other claim on its location.
pub fn contending_keys(claims: &Vec<(String, Option<String>, String)>) -> (found: Vec<Vec<String>>)
    ensures
        found@.len() == claims@.len(),
        forall|i: int|
            0 <= i < found@.len() ==> (#[trigger] found@[i]).deep_view().no_duplicates()
                && found@[i].deep_view().to_set() == contenders(claims@, i),
{
    let mut found: Vec<Vec<String>> = Vec::new();
    let mut i: usize = 0;
    while i < claims.len()
        invariant
            i <= claims@.len(),
            found@.len() == i,
            forall|k: int|
                0 <= k < i ==> (#[trigger] found@[k]).deep_view().no_duplicates()
                    && found@[k].deep_view().to_set() == contenders(claims@, k),
        decreases claims.len() - i,
    {
        let mut others: Vec<String> = Vec::new();
        let mut j: usize = 0;
        assert(others.deep_view() =~= Seq::<Seq<char>>::empty());
        while j < claims.len()
            invariant
                i < claims@.len(),
                j <= claims@.len(),
                others.deep_view().no_duplicates(),
                others.deep_view().to_set() == Set::new(
                    |k: Seq<char>|
                        exists|x: int|
                            0 <= x < j && claim_view(claims@[x]).2 == k && #[trigger] contends(
                                claim_view(claims@[i as int]),
                                claim_view(claims@[x]),
                            ),
                ),
            decreases claims.len() - j,
        {
            let (loc, marker, key) = &claims[i];
            let (dloc, dmarker, dkey) = &claims[j];
            let hit = text_eq(dloc.as_str(), loc.as_str()) && !text_eq(dkey.as_str(), key.as_str())
                && (marker.is_none() || dmarker.is_none() || same_marker(marker, dmarker));
            let ghost before = others.deep_view();
            assert(hit == contends(claim_view(claims@[i as int]), claim_view(claims@[j as int])));
            if hit {
                insert_text(&mut others, dkey.clone());
                proof {
                    lemma_with_text_set(before, claim_view(claims@[j as int]).2);
                }
            }
            assert(others.deep_view().to_set() =~= Set::new(
                |k: Seq<char>|
                    exists|x: int|
                        0 <= x < j + 1 && claim_view(claims@[x]).2 == k && #[trigger] contends(
                            claim_view(claims@[i as int]),
                            claim_view(claims@[x]),
                        ),
            )) by {
                assert forall|k: Seq<char>| others.deep_view().to_set().contains(k) <==> (exists|x: int|
                    0 <= x < j + 1 && claim_view(claims@[x]).2 == k && #[trigger] contends(
                        claim_view(claims@[i as int]),
                        claim_view(claims@[x]),
                    )) by {
                    if others.deep_view().to_set().contains(k) {
                        if before.to_set().contains(k) {
                            let x = choose|x: int| 0 <= x < j && claim_view(claims@[x]).2 == k && #[trigger] contends(
                                claim_view(claims@[i as int]),
                                claim_view(claims@[x]),
                            );
                            assert(contends(claim_view(claims@[i as int]), claim_view(claims@[x])));
                        } else {
                            assert(contends(claim_view(claims@[i as int]), claim_view(claims@[j as int])));
                        }
                    }
                    if exists|x: int| 0 <= x < j + 1 && claim_view(claims@[x]).2 == k && #[trigger] contends(
                        claim_view(claims@[i as int]),
                        claim_view(claims@[x]),
                    ) {
                        let x = choose|x: int| 0 <= x < j + 1 && claim_view(claims@[x]).2 == k && #[trigger] contends(
                            claim_view(claims@[i as int]),
                            claim_view(claims@[x]),
                        );
                        if x < j {
                            assert(before.to_set().contains(k));
                        }
                    }
                }
            }
            j = j + 1;
        }
        assert(others.deep_view().to_set() =~= contenders(claims@, i as int));
        found.push(others);
        i = i + 1;
    }
    found
}


// ---- a plan as a whole ----

/// Whether `action` places a node: a write, an overwrite, or the overwrite of
/// a directory a record drifted into.
pub open spec fn places_node(action: crate::decide::ActionView) -> bool {
    action is Write || action is Overwrite || action is OverwriteDirectory
}

/// The directory past the depth limit on the way to the first action of
/// `actions` that places a node too deep, if any does.
pub open spec fn first_too_deep(actions: Seq<(Seq<char>, crate::decide::ActionView)>) -> Option<Seq<char>>
    decreases actions.len(),
{
    if actions.len() == 0 {
        None
    } else {
        match first_too_deep(actions.drop_last()) {
            Some(p) => Some(p),
            None => if places_node(actions.last().1) && crate::act::is_too_deep(actions.last().0) {
                Some(crate::act::depth_offender(actions.last().0))
            } else {
                None
            },
        }
    }
}

/// A plan placing a node deeper than the destination walk reaches is refused
/// before anything is applied, naming the directory a level past the limit
/// on the way to the first such node.
pub fn check_depth(actions: &Vec<(String, crate::decide::Action)>) -> (checked: Result<(), crate::error::Error>)
    ensures
        match first_too_deep(crate::act::actions_view(actions@)) {
            None => checked is Ok,
            Some(p) => checked matches Err(crate::error::Error::DestinationTooDeep { path, limit })
                && path@ == p && limit == crate::error::MAX_WALK_DEPTH,
        },
{
    let ghost all = crate::act::actions_view(actions@);
    let mut i: usize = 0;
    while i < actions.len()
        invariant
            i <= actions@.len(),
            all == crate::act::actions_view(actions@),
            first_too_deep(all.take(i as int)) is None,
        decreases actions.len() - i,
    {
        proof {
            assert(all.take(i + 1).drop_last() =~= all.take(i as int));
            assert(all.take(i + 1).last() == all[i as int]);
        }
        let places = match &actions[i].1 {
            crate::decide::Action::Write { .. } | crate::decide::Action::Overwrite { .. }
            | crate::decide::Action::OverwriteDirectory { .. } => true,
            _ => false,
        };
        if places {
            if let Some(offender) = crate::act::too_deep(actions[i].0.as_str()) {
                proof {
                    lemma_first_too_deep_prefix(all, i + 1);
                }
                return Err(
                    crate::error::Error::DestinationTooDeep { path: offender, limit: crate::error::MAX_WALK_DEPTH },
                );
            }
        }
        i = i + 1;
    }
    assert(all.take(actions@.len() as int) =~= all);
    Ok(())
}

/// A node placed too deep within a prefix of the plan is the first in all of
/// it.
proof fn lemma_first_too_deep_prefix(actions: Seq<(Seq<char>, crate::decide::ActionView)>, m: int)
    requires
        0 <= m <= actions.len(),
        first_too_deep(actions.take(m)) is Some,
    ensures
        first_too_deep(actions) == first_too_deep(actions.take(m)),
    decreases actions.len() - m,
{
    if m < actions.len() {
        assert(actions.take(m + 1).drop_last() =~= actions.take(m));
        lemma_first_too_deep_prefix(actions, m + 1);
    } else {
        assert(actions.take(m) =~= actions);
    }
}

/// The paths a removal names, judged: those the gateway normalizes to a
/// location clear of the state subtree, by that location, each once; and
/// every other request as it was spelled, each once, to be refused as
/// leaving the destination.
pub fn removal_scope(requested: &Vec<String>, prefix: Option<&str>) -> (scope: (Vec<String>, Vec<String>))
    ensures
        scope.0.deep_view().no_duplicates(),
        scope.1.deep_view().no_duplicates(),
        scope.0.deep_view().to_set() == Set::new(
            |n: Seq<char>|
                exists|i: int| 0 <= i < requested@.len() && #[trigger] claimed(requested@[i]@, opt_view(prefix)) == Some(n),
        ),
        scope.1.deep_view().to_set() == Set::new(
            |r: Seq<char>|
                exists|i: int| 0 <= i < requested@.len() && requested@[i]@ == r && #[trigger] claimed(requested@[i]@, opt_view(prefix)) is None,
        ),
{
    let ghost pv = opt_view(prefix);
    let mut admitted: Vec<String> = Vec::new();
    let mut refused: Vec<String> = Vec::new();
    assert(admitted.deep_view() =~= Seq::<Seq<char>>::empty());
    assert(refused.deep_view() =~= Seq::<Seq<char>>::empty());
    let mut i: usize = 0;
    while i < requested.len()
        invariant
            i <= requested@.len(),
            pv == opt_view(prefix),
            admitted.deep_view().no_duplicates(),
            refused.deep_view().no_duplicates(),
            admitted.deep_view().to_set() == Set::new(
                |n: Seq<char>| exists|x: int| 0 <= x < i && #[trigger] claimed(requested@[x]@, pv) == Some(n),
            ),
            refused.deep_view().to_set() == Set::new(
                |r: Seq<char>|
                    exists|x: int| 0 <= x < i && requested@[x]@ == r && #[trigger] claimed(requested@[x]@, pv) is None,
            ),
        decreases requested.len() - i,
    {
        let location = match contained_normalize(requested[i].as_str()) {
            Some(n) => if overlaps_state(n.as_str(), prefix) {
                None
            } else {
                Some(n)
            },
            None => None,
        };
        let ghost ba = admitted.deep_view();
        let ghost br = refused.deep_view();
        match location {
            Some(n) => {
                let ghost nv = n@;
                insert_text(&mut admitted, n);
                proof {
                    lemma_with_text_set(ba, nv);
                    assert(admitted.deep_view().to_set() =~= Set::new(
                        |m: Seq<char>| exists|x: int| 0 <= x < i + 1 && #[trigger] claimed(requested@[x]@, pv) == Some(m),
                    )) by {
                        assert forall|m: Seq<char>| admitted.deep_view().to_set().contains(m) <==> (exists|x: int| 0 <= x < i + 1 && #[trigger] claimed(requested@[x]@, pv) == Some(m)) by {
                            if admitted.deep_view().to_set().contains(m) && !ba.to_set().contains(m) {
                                assert(claimed(requested@[i as int]@, pv) == Some(m));
                            }
                            if exists|x: int| 0 <= x < i + 1 && #[trigger] claimed(requested@[x]@, pv) == Some(m) {
                                let x = choose|x: int| 0 <= x < i + 1 && #[trigger] claimed(requested@[x]@, pv) == Some(m);
                                if x < i {
                                    assert(ba.to_set().contains(m));
                                }
                            }
                        }
                    }
                    assert(refused.deep_view().to_set() =~= Set::new(
                        |r: Seq<char>|
                            exists|x: int| 0 <= x < i + 1 && requested@[x]@ == r && #[trigger] claimed(requested@[x]@, pv) is None,
                    )) by {
                        assert forall|r: Seq<char>| refused.deep_view().to_set().contains(r) <==> (exists|x: int| 0 <= x < i + 1 && requested@[x]@ == r && #[trigger] claimed(requested@[x]@, pv) is None) by {
                            if exists|x: int| 0 <= x < i + 1 && requested@[x]@ == r && #[trigger] claimed(requested@[x]@, pv) is None {
                                let x = choose|x: int| 0 <= x < i + 1 && requested@[x]@ == r && #[trigger] claimed(requested@[x]@, pv) is None;
                                if x < i {
                                    assert(br.to_set().contains(r));
                                }
                            }
                        }
                    }
                }
            },
            None => {
                insert_text(&mut refused, requested[i].clone());
                proof {
                    lemma_with_text_set(br, requested@[i as int]@);
                    assert(admitted.deep_view().to_set() =~= Set::new(
                        |m: Seq<char>| exists|x: int| 0 <= x < i + 1 && #[trigger] claimed(requested@[x]@, pv) == Some(m),
                    )) by {
                        assert forall|m: Seq<char>| admitted.deep_view().to_set().contains(m) <==> (exists|x: int| 0 <= x < i + 1 && #[trigger] claimed(requested@[x]@, pv) == Some(m)) by {
                            if exists|x: int| 0 <= x < i + 1 && #[trigger] claimed(requested@[x]@, pv) == Some(m) {
                                let x = choose|x: int| 0 <= x < i + 1 && #[trigger] claimed(requested@[x]@, pv) == Some(m);
                                if x < i {
                                    assert(ba.to_set().contains(m));
                                }
                            }
                        }
                    }
                    assert(refused.deep_view().to_set() =~= Set::new(
                        |r: Seq<char>|
                            exists|x: int| 0 <= x < i + 1 && requested@[x]@ == r && #[trigger] claimed(requested@[x]@, pv) is None,
                    )) by {
                        assert forall|r: Seq<char>| refused.deep_view().to_set().contains(r) <==> (exists|x: int| 0 <= x < i + 1 && requested@[x]@ == r && #[trigger] claimed(requested@[x]@, pv) is None) by {
                            if refused.deep_view().to_set().contains(r) && !br.to_set().contains(r) {
                                assert(claimed(requested@[i as int]@, pv) is None);
                            }
                            if exists|x: int| 0 <= x < i + 1 && requested@[x]@ == r && #[trigger] claimed(requested@[x]@, pv) is None {
                                let x = choose|x: int| 0 <= x < i + 1 && requested@[x]@ == r && #[trigger] claimed(requested@[x]@, pv) is None;
                                if x < i {
                                    assert(br.to_set().contains(r));
                                }
                            }
                        }
                    }
                }
            },
        }
        i = i + 1;
    }
    (admitted, refused)
}


/// How deciding first sorts a recorded path.
#[derive(Debug, PartialEq, Eq, Structural)]
pub enum OrphanVerdict {
    /// Not an orphan of this owner: the desired tree names it, it is inside
    /// the state subtree, another owner holds it alone, or the removal does
    /// not judge it.
    NotOrphan,
    /// An orphan whose key the projection may not act at.
    Containment,
    /// An orphan other owners still hold: this owner is only dropped.
    Release,
    /// An orphan this owner holds alone, for its ancestry and node to decide.
    Judge,
}

/// How deciding first sorts the record at `path`.
pub open spec fn spec_orphan_verdict(
    owner: Seq<char>,
    path: Seq<char>,
    recorded: RecordView,
    named: Seq<Seq<char>>,
    prefix: Option<Seq<char>>,
    judged: Option<Seq<Seq<char>>>,
) -> OrphanVerdict {
    if named.contains(path) || crate::snapshot::spec_in_state(path, prefix) || !recorded.owners.contains(owner)
        || (judged matches Some(j) && !j.contains(path)) {
        OrphanVerdict::NotOrphan
    } else if spec_overlaps_state(path, prefix) || spec_contained_normalize(path) != Some(path) {
        OrphanVerdict::Containment
    } else if recorded.owners.len() > 1 {
        OrphanVerdict::Release
    } else {
        OrphanVerdict::Judge
    }
}

/// How deciding first sorts the record at `path` for `owner`, given every
/// location the desired tree names and, for a removal naming paths, the
/// paths it judges.
pub fn orphan_verdict(
    owner: &str,
    path: &str,
    recorded: &crate::manifest::ManifestEntry,
    named: &Vec<String>,
    prefix: Option<&str>,
    judged: Option<&Vec<String>>,
) -> (verdict: OrphanVerdict)
    ensures
        verdict == spec_orphan_verdict(
            owner@,
            path@,
            recorded@,
            named.deep_view(),
            opt_view(prefix),
            match judged {
                Some(j) => Some(j.deep_view()),
                None => None,
            },
        ),
{
    let is_named = crate::snapshot::holds_text(named, path);
    let held = recorded.held_by(owner);
    let covered = match judged {
        Some(j) => crate::snapshot::holds_text(j, path),
        None => true,
    };
    if is_named || crate::snapshot::in_state(path, prefix) || !held || !covered {
        return OrphanVerdict::NotOrphan;
    }
    if overlaps_state(path, prefix) || !crate::snapshot::contained(path) {
        return OrphanVerdict::Containment;
    }
    assert(recorded@.owners.len() == recorded.owners@.len());
    if recorded.owners.len() > 1 {
        OrphanVerdict::Release
    } else {
        OrphanVerdict::Judge
    }
}


/// What a removal clears: everything the owner holds, or the paths a caller
/// names.
pub enum RemovalScope<'a> {
    /// Every path recorded under the owner.
    Everything,
    /// The recorded paths this list names, and no others; an empty list names
    /// nothing and clears nothing.
    Paths(&'a Vec<String>),
}

/// A removal's scope, judged: `None` to judge every path the owner holds, or
/// the normalized locations it judges (see [`removal_scope`]); and the
/// requests refused as leaving the destination.
pub fn judge_scope(scope: RemovalScope, prefix: Option<&str>) -> (judged: (Option<Vec<String>>, Vec<String>))
    ensures
        match scope {
            RemovalScope::Everything => judged.0 is None && judged.1@.len() == 0,
            RemovalScope::Paths(requested) => judged.0 matches Some(admitted) && {
                &&& admitted.deep_view().no_duplicates()
                &&& judged.1.deep_view().no_duplicates()
                &&& admitted.deep_view().to_set() == Set::new(
                    |n: Seq<char>|
                        exists|i: int| 0 <= i < requested@.len() && #[trigger] claimed(requested@[i]@, opt_view(prefix)) == Some(n),
                )
                &&& judged.1.deep_view().to_set() == Set::new(
                    |r: Seq<char>|
                        exists|i: int|
                            0 <= i < requested@.len() && requested@[i]@ == r && #[trigger] claimed(requested@[i]@, opt_view(prefix)) is None,
                )
            },
        },
{
    match scope {
        RemovalScope::Everything => (None, Vec::new()),
        RemovalScope::Paths(requested) => {
            let (admitted, refused) = removal_scope(requested, prefix);
            (Some(admitted), refused)
        },
    }
}

/// Where a sourced key's origin is reported: at the key itself where an
/// action is keyed by it, else at the location it normalizes to, if any.
pub open spec fn origin_landing(key: Seq<char>, keys: Seq<Seq<char>>) -> Option<Seq<char>> {
    if keys.contains(key) {
        Some(key)
    } else {
        spec_contained_normalize(key)
    }
}

/// Each key a source other than the caller chose, with its origin, under
/// the path its action landed on, in the order the keys are held.
pub open spec fn landed_origins(
    sources: Seq<(Seq<char>, OriginView)>,
    keys: Seq<Seq<char>>,
) -> Seq<(Seq<char>, OriginView)>
    decreases sources.len(),
{
    if sources.len() == 0 {
        Seq::empty()
    } else {
        let before = landed_origins(sources.drop_last(), keys);
        let (key, origin) = sources.last();
        if origin is Caller {
            before
        } else {
            match origin_landing(key, keys) {
                Some(path) => before.push((path, origin)),
                None => before,
            }
        }
    }
}

/// The keys `desired` holds, each with its origin.
pub open spec fn held_sources(desired: Desired) -> Seq<(Seq<char>, OriginView)> {
    Seq::new(
        desired.paths().len(),
        |i: int|
            (
                desired.paths()[i],
                match desired.lookup(desired.paths()[i]) {
                    Some(held) => held.1,
                    None => OriginView::Caller,
                },
            ),
    )
}

/// The views of `pairs`.
pub open spec fn origins_view(pairs: Seq<(String, Origin)>) -> Seq<(Seq<char>, OriginView)> {
    Seq::new(pairs.len(), |i: int| (pairs[i].0@, pairs[i].1@))
}

/// Each sourced desired key under the path its action landed on: the key
/// itself where `action_keys` holds it, and its normalized location where
/// admission moved the action there.
pub fn origins_of(desired: &Desired, action_keys: &Vec<String>) -> (origins: Vec<(String, Origin)>)
    ensures
        origins_view(origins@) == landed_origins(held_sources(*desired), action_keys.deep_view()),
{
    let sources = desired.sources();
    let ghost all = held_sources(*desired);
    let ghost keys = action_keys.deep_view();
    let mut origins: Vec<(String, Origin)> = Vec::new();
    let mut i: usize = 0;
    assert(origins_view(origins@) =~= Seq::<(Seq<char>, OriginView)>::empty());
    while i < sources.len()
        invariant
            i <= sources@.len(),
            sources@.len() == all.len(),
            all == held_sources(*desired),
            keys == action_keys.deep_view(),
            forall|k: int|
                0 <= k < sources@.len() ==> (#[trigger] sources@[k]).0@ == all[k].0 && sources@[k].1@
                    == all[k].1,
            origins_view(origins@) == landed_origins(all.take(i as int), keys),
        decreases sources.len() - i,
    {
        proof {
            assert(all.take(i + 1).drop_last() =~= all.take(i as int));
            assert(all.take(i + 1).last() == all[i as int]);
            assert(sources@[i as int].0@ == all[i as int].0);
        }
        let (key, origin) = sources[i];
        let ghost before = origins_view(origins@);
        let sourced = match origin {
            Origin::Caller => false,
            _ => true,
        };
        if sourced {
            let landing = if crate::snapshot::holds_text(action_keys, key.as_str()) {
                Some(key.clone())
            } else {
                contained_normalize(key.as_str())
            };
            match landing {
                Some(path) => {
                    origins.push((path, origin.duplicate()));
                    assert(origins_view(origins@) =~= before.push((origins@.last().0@, all[i as int].1)));
                },
                None => {},
            }
        }
        i = i + 1;
    }
    assert(all.take(sources@.len() as int) =~= all);
    origins
}

/// A removal's actions completed: each request the scope refused is refused
/// as leaving the destination, and, for a removal naming paths, each judged
/// path no action is keyed by says this owner did not hold it.
pub open spec fn finished_removal(
    actions: Seq<(Seq<char>, crate::decide::ActionView)>,
    refused: Seq<Seq<char>>,
    judged: Option<Seq<Seq<char>>>,
) -> Seq<(Seq<char>, crate::decide::ActionView)> {
    let with_refusals = actions + Seq::new(
        refused.len(),
        |i: int|
            (
                refused[i],
                crate::decide::ActionView::Refuse { refusal: RefusalView::Containment { through: None } },
            ),
    );
    match judged {
        None => with_refusals,
        Some(paths) => with_refusals + unrecorded(with_refusals, paths),
    }
}

/// The paths of `paths` no action of `actions` is keyed by, each as
/// [`NotRecorded`](crate::decide::Action::NotRecorded), in order.
pub open spec fn unrecorded(
    actions: Seq<(Seq<char>, crate::decide::ActionView)>,
    paths: Seq<Seq<char>>,
) -> Seq<(Seq<char>, crate::decide::ActionView)>
    decreases paths.len(),
{
    if paths.len() == 0 {
        Seq::empty()
    } else {
        let before = unrecorded(actions, paths.drop_last());
        let p = paths.last();
        if exists|k: int| 0 <= k < actions.len() && #[trigger] actions[k].0 == p {
            before
        } else {
            before.push((p, crate::decide::ActionView::NotRecorded))
        }
    }
}

/// Completes the actions a removal planned over what the owner holds with
/// the refusals of its scope and, where it names paths, a
/// [`NotRecorded`](crate::decide::Action::NotRecorded) for each judged path
/// nothing acts on.
pub fn finish_removal(
    actions: Vec<(String, crate::decide::Action)>,
    refused: &Vec<String>,
    judged: Option<&Vec<String>>,
) -> (finished: Vec<(String, crate::decide::Action)>)
    ensures
        crate::act::actions_view(finished@) == finished_removal(
            crate::act::actions_view(actions@),
            refused.deep_view(),
            match judged {
                Some(j) => Some(j.deep_view()),
                None => None,
            },
        ),
{
    let ghost start = crate::act::actions_view(actions@);
    let mut finished = actions;
    let mut i: usize = 0;
    while i < refused.len()
        invariant
            i <= refused@.len(),
            crate::act::actions_view(finished@) == start + Seq::new(
                i as nat,
                |k: int|
                    (
                        refused.deep_view()[k],
                        crate::decide::ActionView::Refuse {
                            refusal: RefusalView::Containment { through: None },
                        },
                    ),
            ),
        decreases refused.len() - i,
    {
        let ghost before = crate::act::actions_view(finished@);
        let ghost refusal = crate::decide::ActionView::Refuse {
            refusal: RefusalView::Containment { through: None },
        };
        let key = refused[i].clone();
        let action = crate::decide::Action::Refuse { refusal: Refusal::Containment { through: None } };
        assert(action@ == refusal);
        finished.push((key, action));
        assert(crate::act::actions_view(finished@) =~= before.push((refused.deep_view()[i as int], refusal)));
        assert(crate::act::actions_view(finished@) =~= start + Seq::new(
            (i + 1) as nat,
            |k: int|
                (
                    refused.deep_view()[k],
                    crate::decide::ActionView::Refuse {
                        refusal: RefusalView::Containment { through: None },
                    },
                ),
        ));
        i = i + 1;
    }
    let ghost with_refusals = crate::act::actions_view(finished@);
    assert(with_refusals =~= finished_removal(start, refused.deep_view(), None));
    match judged {
        None => finished,
        Some(paths) => {
            let mut keys: Vec<String> = Vec::new();
            let mut k: usize = 0;
            while k < finished.len()
                invariant
                    k <= finished@.len(),
                    keys.deep_view() == Seq::new(k as nat, |x: int| finished@[x].0@),
                decreases finished.len() - k,
            {
                let ghost before = keys.deep_view();
                let key = finished[k].0.clone();
                assert(key@ == finished@[k as int].0@);
                keys.push(key);
                assert(keys.deep_view() =~= before.push(finished@[k as int].0@));
                assert(keys.deep_view() =~= Seq::new((k + 1) as nat, |x: int| finished@[x].0@));
                k = k + 1;
            }
            let ghost all = paths.deep_view();
            let mut extra: Vec<(String, crate::decide::Action)> = Vec::new();
            let mut j: usize = 0;
            while j < paths.len()
                invariant
                    j <= paths@.len(),
                    all == paths.deep_view(),
                    keys.deep_view() == Seq::new(finished@.len(), |x: int| finished@[x].0@),
                    crate::act::actions_view(finished@) == with_refusals,
                    crate::act::actions_view(extra@) == unrecorded(with_refusals, all.take(j as int)),
                decreases paths.len() - j,
            {
                proof {
                    assert(all.take(j + 1).drop_last() =~= all.take(j as int));
                    assert(all.take(j + 1).last() == all[j as int]);
                }
                let ghost before = crate::act::actions_view(extra@);
                let acted = crate::snapshot::holds_text(&keys, paths[j].as_str());
                proof {
                    if acted {
                        let x = choose|x: int| 0 <= x < keys.deep_view().len() && keys.deep_view()[x] == all[j as int];
                        assert(with_refusals[x].0 == all[j as int]);
                    } else {
                        assert forall|x: int| 0 <= x < with_refusals.len() implies #[trigger] with_refusals[x].0 != all[j as int] by {
                            assert(keys.deep_view()[x] == with_refusals[x].0);
                        }
                    }
                }
                if !acted {
                    extra.push((paths[j].clone(), crate::decide::Action::NotRecorded));
                    assert(crate::act::actions_view(extra@) =~= before.push((all[j as int], crate::decide::ActionView::NotRecorded)));
                }
                j = j + 1;
            }
            assert(all.take(paths@.len() as int) =~= all);
            let ghost tail = crate::act::actions_view(extra@);
            finished.append(&mut extra);
            assert(crate::act::actions_view(finished@) =~= with_refusals + tail);
            finished
        },
    }
}

} // verus!
