//! The walk to an action's parent directory: one component at a time from the
//! destination root, following no symlink the projection does not own and
//! creating what is missing only where the action places a node.
//!
//! The walk alternates with the disk: [`ParentWalk::next`] names the component
//! to look at, the caller looks, and [`ParentWalk::found`] says what to do with
//! what it saw. Every verdict is made here.

use vstd::prelude::*;

use crate::containment::{
    contained_target, join_slash, join_texts, nonempty_components, parent_components,
    spec_contained_target, split_slash,
};
use crate::entry::{EntryKind, KindView};
use crate::error::{Error, MAX_WALK_DEPTH};
use crate::hash::{sha256_hex, spec_sha256_hex};
use crate::manifest::{position_of, Manifest, RecordView};
use crate::refusal::{OriginView, Origin, Refused};
use crate::text::{text_eq, utf8_text};

verus! {

/// What stands at the component a walk looks at.
#[derive(Debug)]
pub enum NodeFound {
    /// Nothing.
    Missing,
    /// A directory.
    Directory,
    /// A symlink carrying these target bytes.
    Symlink(Vec<u8>),
    /// Anything else: a file, a fifo, a socket, a device.
    Other,
}

/// What the caller does next with the component it looked at.
#[derive(Debug, PartialEq, Eq, Structural)]
pub enum WalkMove {
    /// Create the directory, open it, and call [`ParentWalk::descended`]; if
    /// something else created it first, look again.
    Create,
    /// Open the directory and call [`ParentWalk::descended`].
    Descend,
    /// Start again from the destination root along the components the walk
    /// now holds.
    Restart,
    /// The node's ancestry is gone: the walk has no parent to give.
    Gone,
}

/// The next thing a walk needs.
#[derive(Debug)]
pub enum WalkStep {
    /// Look at `component` in the directory reached so far; `here` is its
    /// path from the destination root.
    Open { component: String, here: String },
    /// Every ancestor is walked: the parent is the directory reached, at the
    /// path the walked components spell.
    Arrived,
}

/// One walk to the parent of the action key `path`.
pub struct ParentWalk {
    /// The action key.
    pub path: String,
    /// The key's final component.
    pub leaf: String,
    /// Whether the action places a node, so a missing directory is created.
    pub create: bool,
    /// The components still to walk, front first.
    pub components: Vec<String>,
    /// The components walked from the destination root.
    pub prefix: Vec<String>,
    /// The paths at which an owned link was followed.
    pub visited: Vec<String>,
}

/// The refusal of the one path `path` for leaving the destination.
pub open spec fn is_containment_at(error: Error, path: Seq<char>) -> bool {
    error matches Error::Refused(Refused::Containment { paths, origin, .. }) && paths.deep_view() == seq![
        path,
    ] && origin@ == OriginView::Caller
}

/// The refusal of the one path `path` for lying below the symlink `link`,
/// which the projection may not walk through.
pub open spec fn is_containment_below(error: Error, path: Seq<char>, link: Seq<char>) -> bool {
    &&& is_containment_at(error, path)
    &&& error matches Error::Refused(Refused::Containment { below, .. }) && below.deep_view() == seq![
        (path, link),
    ]
}

/// The refusal of the one path `path` for lying below the symlink `link`.
fn containment(path: &str, link: &str) -> (error: Error)
    ensures
        is_containment_below(error, path@, link@),
{
    let paths = vec![path.to_owned()];
    assert(paths.deep_view() =~= seq![path@]);
    let below = vec![(path.to_owned(), link.to_owned())];
    assert(below.deep_view() =~= seq![(path@, link@)]);
    Error::Refused(Refused::Containment { paths, below, origin: Origin::Caller })
}

/// The refusal of the one path `path` as drifted.
fn drift(path: &str) -> (error: Error)
    ensures
        crate::act::is_drift_at(error, path@),
{
    let paths = vec![path.to_owned()];
    assert(paths.deep_view() =~= seq![path@]);
    Error::Refused(Refused::Drift { paths })
}

/// The refusal of the one path `path` as foreign.
fn foreign(path: &str) -> (error: Error)
    ensures
        crate::act::is_foreign_at(error, path@),
{
    let paths = vec![path.to_owned()];
    assert(paths.deep_view() =~= seq![path@]);
    Error::Refused(Refused::Foreign { paths })
}

/// The record a symlink the projection owns at `here` would carry: the
/// manifest's record there, if it records a symlink.
pub open spec fn owned_link(manifest: Manifest, here: Seq<char>) -> Option<RecordView> {
    match manifest.record(here) {
        Some(r) => if r.kind == KindView::Symlink {
            Some(r)
        } else {
            None
        },
        None => None,
    }
}

impl ParentWalk {
    /// The path of the component at the front, from the destination root.
    pub open spec fn here(&self) -> Seq<char> {
        join_slash(self.prefix.deep_view().push(self.components.deep_view()[0]))
    }

    /// A walk to the parent of the normalized action key `path`.
    pub fn new(path: &str, create: bool) -> (walk: ParentWalk)
        ensures
            walk.path@ == path@,
            walk.create == create,
            walk.components.deep_view() == split_slash(path@).drop_last(),
            walk.leaf@ == split_slash(path@).last(),
            walk.prefix@.len() == 0,
            walk.visited@.len() == 0,
    {
        let chars = crate::containment::chars_of(path);
        let pieces = crate::containment::slash_pieces(&chars);
        let mut components = crate::containment::piece_texts(&chars, path, &pieces);
        assert(components.deep_view() =~= split_slash(path@));
        proof {
            crate::containment::lemma_split_slash_nonempty(path@);
        }
        let ghost all = components.deep_view();
        let leaf = components.pop().unwrap();
        assert(components.deep_view() =~= all.drop_last());
        ParentWalk {
            path: path.to_owned(),
            leaf,
            create,
            components,
            prefix: Vec::new(),
            visited: Vec::new(),
        }
    }

    /// The component to look at next, or [`WalkStep::Arrived`] once every
    /// ancestor is walked. A walk that places a node stops rather than go
    /// deeper than [`MAX_WALK_DEPTH`] directories, where the next
    /// observation of the destination could not reach what it placed.
    pub fn next(&self) -> (step: Result<WalkStep, Error>)
        ensures
            self.components@.len() == 0 ==> step matches Ok(WalkStep::Arrived),
            self.components@.len() > 0 && self.create && self.prefix@.len() + 1 > MAX_WALK_DEPTH
                ==> (step matches Err(Error::DestinationTooDeep { path, limit }) && path@
                == self.here() && limit == MAX_WALK_DEPTH),
            self.components@.len() > 0 && !(self.create && self.prefix@.len() + 1 > MAX_WALK_DEPTH)
                ==> (step matches Ok(WalkStep::Open { component, here }) && component@
                == self.components.deep_view()[0] && here@ == self.here()),
    {
        if self.components.len() == 0 {
            return Ok(WalkStep::Arrived);
        }
        let mut walked = crate::manifest::copy_strings(&self.prefix);
        walked.push(self.components[0].clone());
        assert(walked.deep_view() =~= self.prefix.deep_view().push(self.components.deep_view()[0]));
        let here = join_texts(&walked);
        if self.create && self.prefix.len() >= MAX_WALK_DEPTH {
            return Err(Error::DestinationTooDeep { path: here, limit: MAX_WALK_DEPTH });
        }
        Ok(WalkStep::Open { component: self.components[0].clone(), here })
    }

    /// The directory at the front was opened: the walk stands in it.
    pub fn descended(&mut self)
        requires
            old(self).components@.len() > 0,
        ensures
            final(self).components.deep_view() == old(self).components.deep_view().drop_first(),
            final(self).prefix.deep_view() == old(self).prefix.deep_view().push(
                old(self).components.deep_view()[0],
            ),
            final(self).path == old(self).path,
            final(self).leaf == old(self).leaf,
            final(self).create == old(self).create,
            final(self).visited == old(self).visited,
    {
        let ghost before_c = self.components.deep_view();
        let ghost before_p = self.prefix.deep_view();
        let c = self.components.remove(0);
        assert(self.components.deep_view() =~= before_c.drop_first());
        self.prefix.push(c);
        assert(self.prefix.deep_view() =~= before_p.push(before_c[0]));
    }

    /// Judges what stands at the front component. A missing one is created
    /// where the action places a node and is gone ancestry otherwise; a
    /// directory is descended into; a symlink is followed only where the
    /// manifest records it as one the projection wrote, its target still
    /// hashes as recorded, is UTF-8, and lands inside the destination, and
    /// only once per walk; anything else blocks a placing walk, as drift
    /// where it is recorded and as foreign where not, and is gone ancestry
    /// for any other.
    pub fn found(&mut self, node: NodeFound, manifest: &Manifest) -> (verdict: Result<WalkMove, Error>)
        requires
            old(self).components@.len() > 0,
            manifest.wf(),
        ensures
            ({
                let here = old(self).here();
                match node {
                    NodeFound::Missing => {
                        &&& *final(self) == *old(self)
                        &&& verdict == if old(self).create {
                            Ok::<WalkMove, Error>(WalkMove::Create)
                        } else {
                            Ok::<WalkMove, Error>(WalkMove::Gone)
                        }
                    },
                    NodeFound::Directory => *final(self) == *old(self) && verdict == Ok::<
                        WalkMove,
                        Error,
                    >(WalkMove::Descend),
                    NodeFound::Other => {
                        &&& *final(self) == *old(self)
                        &&& !old(self).create ==> verdict == Ok::<WalkMove, Error>(WalkMove::Gone)
                        &&& old(self).create && manifest.record(here) is Some ==> (verdict matches Err(
                            e,
                        ) && crate::act::is_drift_at(e, here))
                        &&& old(self).create && manifest.record(here) is None ==> (verdict matches Err(
                            e,
                        ) && crate::act::is_foreign_at(e, here))
                    },
                    NodeFound::Symlink(bytes) => match owned_link(*manifest, here) {
                        None => verdict matches Err(e) && is_containment_below(e, old(self).path@, here),
                        Some(r) => if spec_sha256_hex(bytes@) != r.hash {
                            verdict matches Err(e) && crate::act::is_drift_at(e, here)
                        } else if !vstd::utf8::valid_utf8(bytes@) {
                            verdict matches Err(e) && is_containment_below(e, old(self).path@, here)
                        } else {
                            match spec_contained_target(
                                join_slash(old(self).prefix.deep_view()),
                                vstd::utf8::decode_utf8(bytes@),
                            ) {
                                None => verdict matches Err(e) && is_containment_below(
                                    e,
                                    old(self).path@,
                                    here,
                                ),
                                Some(resolved) => if old(self).visited.deep_view().contains(here) {
                                    verdict matches Err(e) && is_containment_below(e, old(self).path@, here)
                                } else {
                                    &&& verdict == Ok::<WalkMove, Error>(WalkMove::Restart)
                                    &&& final(self).visited.deep_view() == old(
                                        self,
                                    ).visited.deep_view().push(here)
                                    &&& final(self).prefix@.len() == 0
                                    &&& final(self).components.deep_view() == nonempty_components(
                                        split_slash(resolved),
                                    ) + old(self).components.deep_view().drop_first()
                                    &&& final(self).path == old(self).path
                                    &&& final(self).leaf == old(self).leaf
                                    &&& final(self).create == old(self).create
                                },
                            }
                        },
                    },
                }
            }),
    {
        match node {
            NodeFound::Missing => {
                if self.create {
                    Ok(WalkMove::Create)
                } else {
                    Ok(WalkMove::Gone)
                }
            },
            NodeFound::Directory => Ok(WalkMove::Descend),
            NodeFound::Other => {
                if !self.create {
                    return Ok(WalkMove::Gone);
                }
                let here = self.here_text();
                if manifest.contains_key(here.as_str()) {
                    Err(drift(here.as_str()))
                } else {
                    Err(foreign(here.as_str()))
                }
            },
            NodeFound::Symlink(bytes) => {
                let here = self.here_text();
                let recorded = match manifest.get(here.as_str()) {
                    Some(r) => r,
                    None => return Err(containment(self.path.as_str(), here.as_str())),
                };
                let is_link = match &recorded.kind {
                    EntryKind::Symlink => true,
                    _ => false,
                };
                if !is_link {
                    return Err(containment(self.path.as_str(), here.as_str()));
                }
                let hash = sha256_hex(bytes.as_slice());
                if !text_eq(hash.as_str(), recorded.hash.as_str()) {
                    return Err(drift(here.as_str()));
                }
                let target = match utf8_text(bytes.as_slice()) {
                    Some(t) => t,
                    None => return Err(containment(self.path.as_str(), here.as_str())),
                };
                let parent = join_texts(&self.prefix);
                let resolved = match contained_target(parent.as_str(), target.as_str()) {
                    Some(r) => r,
                    None => return Err(containment(self.path.as_str(), here.as_str())),
                };
                match position_of(&self.visited, here.as_str()) {
                    Some(i) => {
                        assert(self.visited.deep_view()[i as int] == here@);
                        return Err(containment(self.path.as_str(), here.as_str()));
                    },
                    None => {},
                }
                let ghost before_v = self.visited.deep_view();
                self.visited.push(here);
                assert(self.visited.deep_view() =~= before_v.push(old(self).here()));
                let mut restarted = parent_components(resolved.as_str());
                let ghost head = restarted.deep_view();
                let ghost rest = self.components.deep_view().drop_first();
                let mut i: usize = 1;
                while i < self.components.len()
                    invariant
                        1 <= i <= self.components@.len(),
                        rest == self.components.deep_view().drop_first(),
                        restarted.deep_view() == head + rest.take(i - 1),
                    decreases self.components.len() - i,
                {
                    let ghost b = restarted.deep_view();
                    restarted.push(self.components[i].clone());
                    assert(restarted.deep_view() =~= b.push(self.components@[i as int]@));
                    assert(restarted.deep_view() =~= head + rest.take(i as int));
                    i = i + 1;
                }
                assert(rest.take(self.components@.len() - 1) =~= rest);
                self.components = restarted;
                self.prefix = Vec::new();
                Ok(WalkMove::Restart)
            },
        }
    }

    /// The text of [`here`](Self::here).
    fn here_text(&self) -> (here: String)
        requires
            self.components@.len() > 0,
        ensures
            here@ == self.here(),
    {
        let mut walked = crate::manifest::copy_strings(&self.prefix);
        walked.push(self.components[0].clone());
        assert(walked.deep_view() =~= self.prefix.deep_view().push(self.components.deep_view()[0]));
        join_texts(&walked)
    }

    /// Where the walk arrived: the parent's path from the destination root.
    pub fn parent_path(&self) -> (parent: String)
        ensures
            parent@ == join_slash(self.prefix.deep_view()),
    {
        join_texts(&self.prefix)
    }
}

} // verus!
