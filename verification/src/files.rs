//! Files named on their own, each projected under its basename: which name
//! each path takes, and what holding an entry under it costs the load.

use vstd::prelude::*;
use vstd::string::StringExecFns;

use crate::containment::{file_name, path_file_name};
use crate::entry::{Entry, EntryView};
use crate::error::Error;
use crate::limits::Budget;
use crate::text::text_eq;

verus! {

/// Why a run of named paths cannot be keyed by basename.
pub enum NamingFault {
    /// The path has no file name.
    Nameless { path: Seq<char> },
    /// Two different paths share one file name: `first` met before `second`.
    Shared { first: Seq<char>, second: Seq<char> },
}

/// The `(name, path)` pairs named paths are keyed by, in the order each name
/// was first met: a path named twice counts once, a path without a file name
/// refuses the run, and so does a second path under a name already taken.
pub open spec fn named_files(paths: Seq<Seq<char>>) -> Result<Seq<(Seq<char>, Seq<char>)>, NamingFault>
    decreases paths.len(),
{
    if paths.len() == 0 {
        Ok(Seq::empty())
    } else {
        match named_files(paths.drop_last()) {
            Err(fault) => Err(fault),
            Ok(named) => {
                let p = paths.last();
                match path_file_name(p) {
                    None => Err(NamingFault::Nameless { path: p }),
                    Some(n) => if exists|i: int| 0 <= i < named.len() && #[trigger] named[i].0 == n {
                        let i = choose|i: int| 0 <= i < named.len() && #[trigger] named[i].0 == n;
                        if named[i].1 == p {
                            Ok(named)
                        } else {
                            Err(NamingFault::Shared { first: named[i].1, second: p })
                        }
                    } else {
                        Ok(named.push((n, p)))
                    },
                }
            },
        }
    }
}

/// Each name is taken once.
pub open spec fn names_distinct(named: Seq<(Seq<char>, Seq<char>)>) -> bool {
    forall|i: int, j: int|
        0 <= i < named.len() && 0 <= j < named.len() && i != j ==> #[trigger] named[i].0
            != #[trigger] named[j].0
}

/// The views of `pairs`.
pub open spec fn pairs_view(pairs: Seq<(String, String)>) -> Seq<(Seq<char>, Seq<char>)> {
    Seq::new(pairs.len(), |i: int| (pairs[i].0@, pairs[i].1@))
}

/// Keys each of `paths` (already absolute) by its file name.
pub fn name_files(paths: &Vec<String>) -> (named: Result<Vec<(String, String)>, Error>)
    ensures
        match named_files(paths.deep_view()) {
            Ok(pairs) => named matches Ok(v) && pairs_view(v@) == pairs,
            Err(NamingFault::Nameless { path }) => named matches Err(Error::FilesNodeKind { path: p })
                && p@ == path,
            Err(NamingFault::Shared { first, second }) => named matches Err(
                Error::FilesDuplicate { first: f, second: s },
            ) && f@ == first && s@ == second,
        },
{
    let ghost all = paths.deep_view();
    let mut named: Vec<(String, String)> = Vec::new();
    let mut i: usize = 0;
    assert(pairs_view(named@) =~= Seq::empty());
    while i < paths.len()
        invariant
            i <= paths@.len(),
            all == paths.deep_view(),
            named_files(all.take(i as int)) == Ok::<Seq<(Seq<char>, Seq<char>)>, NamingFault>(
                pairs_view(named@),
            ),
            names_distinct(pairs_view(named@)),
        decreases paths.len() - i,
    {
        proof {
            assert(all.take(i + 1).drop_last() =~= all.take(i as int));
            assert(all.take(i + 1).last() == paths@[i as int]@);
        }
        let path = &paths[i];
        let name = match file_name(path.as_str()) {
            Some(n) => n,
            None => {
                proof {
                    lemma_named_files_fault_sticks(all, i + 1);
                }
                return Err(Error::FilesNodeKind { path: path.clone() });
            },
        };
        let ghost before = pairs_view(named@);
        let found = find_name(&named, name.as_str());
        match found {
            Some(j) => {
                assert(before[j as int].0 == name@);
                proof {
                    let c = choose|c: int| 0 <= c < before.len() && #[trigger] before[c].0 == name@;
                    if c != j {
                        assert(before[c].0 != before[j as int].0);
                    }
                }
                if !text_eq(named[j].1.as_str(), path.as_str()) {
                    proof {
                        lemma_named_files_fault_sticks(all, i + 1);
                    }
                    return Err(Error::FilesDuplicate { first: named[j].1.clone(), second: path.clone() });
                }
            },
            None => {
                proof {
                    assert forall|c: int| 0 <= c < before.len() implies #[trigger] before[c].0 != name@ by {
                        assert(before[c].0 == named@[c].0@);
                    }
                }
                named.push((name, path.clone()));
                proof {
                    assert(pairs_view(named@) =~= before.push((name@, path@)));
                }
            },
        }
        i = i + 1;
    }
    assert(all.take(paths@.len() as int) =~= all);
    Ok(named)
}

/// The index of the pair named `name`.
fn find_name(named: &Vec<(String, String)>, name: &str) -> (found: Option<usize>)
    ensures
        match found {
            Some(j) => j < named@.len() && named@[j as int].0@ == name@,
            None => forall|k: int| 0 <= k < named@.len() ==> named@[k].0@ != name@,
        },
{
    let mut j: usize = 0;
    while j < named.len()
        invariant
            j <= named@.len(),
            forall|k: int| 0 <= k < j ==> named@[k].0@ != name@,
        decreases named.len() - j,
    {
        if text_eq(named[j].0.as_str(), name) {
            return Some(j);
        }
        j = j + 1;
    }
    None
}

/// Once a prefix of the paths is refused, every longer run of them is, for
/// the same reason.
proof fn lemma_named_files_fault_sticks(paths: Seq<Seq<char>>, m: int)
    requires
        0 <= m <= paths.len(),
        named_files(paths.take(m)) is Err,
    ensures
        named_files(paths) == named_files(paths.take(m)),
    decreases paths.len() - m,
{
    if m < paths.len() {
        assert(paths.take(m + 1).drop_last() =~= paths.take(m));
        lemma_named_files_fault_sticks(paths, m + 1);
    } else {
        assert(paths.take(m) =~= paths);
    }
}

/// What holding `entry` under `name` costs beyond a file's bytes, which are
/// spent as they are read: the name's bytes, and a symlink's target or a
/// block's body and marker.
pub open spec fn held_bytes(name: Seq<char>, entry: EntryView) -> int {
    vstd::utf8::encode_utf8(name).len() + match entry {
        EntryView::File { .. } => 0,
        EntryView::Symlink { target } => vstd::utf8::encode_utf8(target).len() as int,
        EntryView::Block { body, marker, .. } => (body.len() + vstd::utf8::encode_utf8(marker).len()) as int,
    }
}

/// Spends what holding `entry` under `name` costs, refusing the named file at
/// `path` where the budget does not cover it.
pub fn charge_held(budget: &mut Budget, name: &str, entry: &Entry, path: &str) -> (charged: Result<
    (),
    Error,
>)
    requires
        held_bytes(name@, entry@) <= u64::MAX,
    ensures
        final(budget).spec_limit() == old(budget).spec_limit(),
        held_bytes(name@, entry@) <= old(budget).spec_remaining() ==> {
            &&& charged is Ok
            &&& final(budget).spec_remaining() == old(budget).spec_remaining() - held_bytes(
                name@,
                entry@,
            )
        },
        held_bytes(name@, entry@) > old(budget).spec_remaining() ==> {
            &&& charged matches Err(Error::SourceTooLarge { path: p, limit })
            &&& p@ == path@
            &&& limit == old(budget).spec_limit()
            &&& final(budget).spec_exhausted()
        },
{
    proof {
        vstd::utf8::encode_utf8_decode_utf8(name@);
    }
    let name_bytes = name.as_bytes().len() as u64;
    let extra: u64 = match entry {
        Entry::File { .. } => 0,
        Entry::Symlink { target } => {
            proof {
                vstd::utf8::encode_utf8_decode_utf8(target@);
            }
            target.as_str().as_bytes().len() as u64
        },
        Entry::Block { body, marker, .. } => {
            proof {
                vstd::utf8::encode_utf8_decode_utf8(marker@);
            }
            body.len() as u64 + marker.as_str().as_bytes().len() as u64
        },
    };
    let held = name_bytes + extra;
    assert(held == held_bytes(name@, entry@));
    if !budget.spend(held) {
        return Err(Error::SourceTooLarge { path: String::from_str(path), limit: budget.limit() });
    }
    Ok(())
}

} // verus!
