//! Reading an archive's members: each one the container yields is judged by
//! the expansion's rules in the order the container lists them, and placed
//! with the body or target it carries. The first refusal, or the first
//! member the container cannot yield, ends the reading.

use vstd::prelude::*;

use crate::archive::{
    is_inserted, tar_judged, zip_judged, Expansion, Placing, TarKind,
};
use crate::entry::{Entry, EntryView};
use crate::error::Error;
use crate::limits::Budget;
use crate::text::lossy_utf8;

verus! {

/// What a container's failure answers: the load outgrowing its budget, where
/// a spend was refused, else bytes that do not decode as the format.
pub open spec fn is_decode_failure(e: Expansion, exhausted: bool, limit: u64, error: Error) -> bool {
    if exhausted {
        error matches Error::ArchiveTooLarge { path, limit: l } && path@ == e.source@ && l == limit
    } else {
        error matches Error::ArchiveDecode { path, format, .. } && path@ == e.source@ && format
            == e.format
    }
}

/// Whether an expansion's counts are spent, so that no further member can be
/// counted; no archive under the member cap comes near it.
pub open spec fn counts_exhausted(e: Expansion) -> bool {
    e.members == usize::MAX || e.dropped_members == usize::MAX
}

/// The refusal of an archive carrying too many members.
pub open spec fn is_too_many(e: Expansion, error: Error) -> bool {
    error matches Error::ArchiveTooManyMembers { path, limit } && path@ == e.source@ && limit
        == crate::archive::MAX_MEMBERS
}

/// `after` and `outcome` are what placing a judged symlink member at
/// `member` with the raw target `raw` comes to: a target that is not UTF-8 is
/// refused, any other is inserted.
pub open spec fn link_placed(
    before: Expansion,
    after: Expansion,
    member: Seq<char>,
    raw: Seq<u8>,
    outcome: Result<(), Error>,
) -> bool {
    if vstd::utf8::valid_utf8(raw) {
        is_inserted(
            before,
            after,
            member,
            EntryView::Symlink { target: vstd::utf8::decode_utf8(raw) },
            outcome,
        )
    } else {
        &&& after == before
        &&& outcome matches Err(Error::ArchiveMemberTargetNotUtf8 { path, member: m, target })
        &&& path@ == before.source@
        &&& m@ == member
        &&& target@ == lossy_utf8(raw)
    }
}

// ---- tar ----

/// A tar member as the container yields it: its header's type byte, its path
/// and link name as the container assembles them, its mode, and its body.
pub struct TarMember {
    pub kind: u8,
    pub path: Vec<u8>,
    pub link: Option<Vec<u8>>,
    pub mode: Result<u32, std::io::Error>,
    pub contents: Result<Vec<u8>, std::io::Error>,
}

/// A tar member's view; a mode or a body the container could not read is
/// `None`.
pub struct TarMemberView {
    pub kind: u8,
    pub path: Seq<u8>,
    pub link: Option<Seq<u8>>,
    pub mode: Option<u32>,
    pub contents: Option<Seq<u8>>,
}

impl View for TarMember {
    type V = TarMemberView;

    open spec fn view(&self) -> TarMemberView {
        TarMemberView {
            kind: self.kind,
            path: self.path@,
            link: match &self.link {
                Some(l) => Some(l@),
                None => None,
            },
            mode: match self.mode {
                Ok(m) => Some(m),
                Err(_) => None,
            },
            contents: match &self.contents {
                Ok(c) => Some(c@),
                Err(_) => None,
            },
        }
    }
}

/// The members the tar crate's reader yields from `stream`, in order, each
/// `None` where it yields an error in its place.
pub uninterp spec fn tar_entries(stream: Seq<u8>) -> Seq<Option<TarMemberView>>;

/// tar's `Archive::entries` over the in-memory `stream`, each entry read
/// whole: its header's type byte (`EntryType::as_byte`), its path and link
/// name as `path_bytes` and `link_name_bytes` assemble them, its header's
/// mode, and its body. What it yields depends on the stream alone; an error
/// where the entries cannot be listed at all is the one item.
#[verifier::external_body]
fn tar_parse(stream: &[u8]) -> (items: Vec<Result<TarMember, std::io::Error>>)
    ensures
        items@.len() == tar_entries(stream@).len(),
        forall|i: int|
            0 <= i < items@.len() ==> match #[trigger] items@[i] {
                Ok(m) => tar_entries(stream@)[i] == Some(m@),
                Err(_) => tar_entries(stream@)[i] is None,
            },
{
    let mut archive = tar::Archive::new(stream);
    match archive.entries() {
        Err(e) => vec![Err(e)],
        Ok(entries) => entries.map(|entry| entry.map(|mut e| {
            let mut body = Vec::new();
            let contents = std::io::Read::read_to_end(&mut e, &mut body).map(|_| body);
            let (kind, mode) = (e.header().entry_type().as_byte(), e.header().mode());
            let link = e.link_name_bytes().map(|l| l.into_owned());
            TarMember { kind, path: e.path_bytes().into_owned(), link, mode, contents }
        })).collect(),
    }
}

/// The kind a tar type byte names, as the tar crate reads it.
pub open spec fn tar_kind_of(byte: u8) -> TarKind {
    if byte == 0 || byte == 48 {
        TarKind::Regular
    } else if byte == 55 {
        TarKind::Continuous
    } else if byte == 50 {
        TarKind::Symlink
    } else if byte == 53 {
        TarKind::Directory
    } else if byte == 103 {
        TarKind::GlobalHeader
    } else {
        TarKind::Other
    }
}

/// The kind a tar type byte names.
pub fn tar_kind(byte: u8) -> (kind: TarKind)
    ensures
        kind == tar_kind_of(byte),
{
    if byte == 0 || byte == 48 {
        TarKind::Regular
    } else if byte == 55 {
        TarKind::Continuous
    } else if byte == 50 {
        TarKind::Symlink
    } else if byte == 53 {
        TarKind::Directory
    } else if byte == 103 {
        TarKind::GlobalHeader
    } else {
        TarKind::Other
    }
}

/// `after` and `outcome` are what placing a judged tar member comes to.
pub open spec fn tar_placed(
    before: Expansion,
    after: Expansion,
    placing: Placing,
    m: TarMemberView,
    exhausted: bool,
    limit: u64,
    outcome: Result<(), Error>,
) -> bool {
    match placing {
        Placing::Nothing => after == before && outcome is Ok,
        Placing::Link { member } => link_placed(
            before,
            after,
            member@,
            match m.link {
                Some(l) => l,
                None => Seq::empty(),
            },
            outcome,
        ),
        Placing::File { member } => match (m.mode, m.contents) {
            (Some(mode), Some(contents)) => is_inserted(
                before,
                after,
                member@,
                EntryView::File { contents, executable: mode & 0o100 != 0 },
                outcome,
            ),
            _ => after == before && (outcome matches Err(e) && is_decode_failure(
                before,
                exhausted,
                limit,
                e,
            )),
        },
    }
}

/// `after` and `outcome` are what reading one item of a tar stream comes to:
/// an item the container failed on is a decode failure; a member is judged
/// by [`Expansion::judge_tar_member`] and, where it places anything, placed.
pub open spec fn tar_step(
    before: Expansion,
    item: Option<TarMemberView>,
    exhausted: bool,
    limit: u64,
    after: Expansion,
    outcome: Result<(), Error>,
) -> bool {
    match item {
        None => after == before && (outcome matches Err(e) && is_decode_failure(
            before,
            exhausted,
            limit,
            e,
        )),
        Some(m) => if counts_exhausted(before) {
            after == before && (outcome matches Err(e) && is_too_many(before, e))
        } else {
            exists|mid: Expansion, placing: Result<Placing, Error>|
                #[trigger] tar_judged(before, mid, m.path, tar_kind_of(m.kind), placing) && match placing {
                    Err(e) => after == mid && outcome == Err::<(), Error>(e),
                    Ok(p) => tar_placed(mid, after, p, m, exhausted, limit, outcome),
                }
        },
    }
}

/// `trace` holds the expansion before each of the first `n` items of `items`
/// and after the last of them, each item read without a refusal.
pub open spec fn tar_trace(
    items: Seq<Option<TarMemberView>>,
    exhausted: bool,
    limit: u64,
    trace: Seq<Expansion>,
    n: int,
) -> bool {
    &&& 0 <= n <= items.len()
    &&& trace.len() == n + 1
    &&& forall|j: int|
        0 <= j < n ==> #[trigger] tar_step(trace[j], items[j], exhausted, limit, trace[j + 1], Ok(()))
}

/// `after` and `read` are what reading `items` from `before` comes to: every
/// item read without a refusal, in order; or the items before the `k`th so
/// read and the `k`th refused or failed, which ends the reading.
pub open spec fn tar_read_ends(
    before: Expansion,
    items: Seq<Option<TarMemberView>>,
    exhausted: bool,
    limit: u64,
    after: Expansion,
    read: Result<(), Error>,
) -> bool {
    match read {
        Ok(()) => exists|trace: Seq<Expansion>|
            #[trigger] tar_trace(items, exhausted, limit, trace, items.len() as int) && trace[0] == before
                && trace.last() == after,
        Err(e) => exists|k: int, trace: Seq<Expansion>|
            #[trigger] tar_trace(items, exhausted, limit, trace, k) && trace[0] == before && k < items.len()
                && tar_step(trace[k], items[k], exhausted, limit, after, Err(e)),
    }
}

// ---- zip ----

#[verifier::external_type_specification]
#[verifier::external_body]
#[verifier::reject_recursive_types(T)]
pub struct ExCursor<T>(std::io::Cursor<T>);

#[verifier::external_type_specification]
#[verifier::external_body]
#[verifier::reject_recursive_types(R)]
pub struct ExZipArchive<R>(zip::ZipArchive<R>);

/// A zip archive read from bytes in memory.
pub type ZipBytes = zip::ZipArchive<std::io::Cursor<Vec<u8>>>;

/// The bytes a zip archive was opened on.
pub uninterp spec fn zip_source(archive: zip::ZipArchive<std::io::Cursor<Vec<u8>>>) -> Seq<u8>;

/// How many members the zip index read from `bytes` lists, or `None` where
/// the zip crate cannot read an index from them.
pub uninterp spec fn zip_index_len(bytes: Seq<u8>) -> Option<nat>;

/// `ZipArchive::new` over the bytes: the archive, holding them, where an
/// index reads from them, else the error it answered (as an I/O error).
#[verifier::external_body]
fn zip_open(bytes: Vec<u8>) -> (opened: Result<ZipBytes, std::io::Error>)
    ensures
        match opened {
            Ok(a) => zip_source(a) == bytes@ && zip_index_len(bytes@) is Some,
            Err(_) => zip_index_len(bytes@) is None,
        },
{
    zip::ZipArchive::new(std::io::Cursor::new(bytes)).map_err(std::io::Error::from)
}

/// `ZipArchive::len`: how many members the archive's index lists.
#[verifier::external_body]
fn zip_len(archive: &ZipBytes) -> (n: usize)
    ensures
        zip_index_len(zip_source(*archive)) == Some(n as nat),
{
    archive.len()
}

/// What a zip member's index entry says of it: its raw name, its Unix mode,
/// and whether it is a directory or a symlink.
pub struct ZipMeta {
    pub name: Vec<u8>,
    pub mode: Option<u32>,
    pub is_dir: bool,
    pub is_symlink: bool,
}

/// A zip member's index entry, as values.
pub struct ZipMetaView {
    pub name: Seq<u8>,
    pub mode: Option<u32>,
    pub is_dir: bool,
    pub is_symlink: bool,
}

impl View for ZipMeta {
    type V = ZipMetaView;

    open spec fn view(&self) -> ZipMetaView {
        ZipMetaView { name: self.name@, mode: self.mode, is_dir: self.is_dir, is_symlink: self.is_symlink }
    }
}

/// What the zip crate reports of member `index` of the archive in `bytes`, or
/// `None` where it cannot open that member.
pub uninterp spec fn zip_member_meta(bytes: Seq<u8>, index: nat) -> Option<ZipMetaView>;

/// `ZipArchive::by_index`, then `name_raw`, `unix_mode`, `is_dir` and
/// `is_symlink` of the member it opens. What it reports depends on the
/// archive's bytes and the index alone; the archive still holds its bytes.
#[verifier::external_body]
fn zip_meta(archive: &mut ZipBytes, index: usize) -> (meta: Result<ZipMeta, std::io::Error>)
    ensures
        zip_source(*final(archive)) == zip_source(*old(archive)),
        match meta {
            Ok(m) => zip_member_meta(zip_source(*old(archive)), index as nat) == Some(m@),
            Err(_) => zip_member_meta(zip_source(*old(archive)), index as nat) is None,
        },
{
    let file = archive.by_index(index).map_err(std::io::Error::from)?;
    let (is_dir, is_symlink) = (file.is_dir(), file.is_symlink());
    Ok(ZipMeta { name: file.name_raw().to_vec(), mode: file.unix_mode(), is_dir, is_symlink })
}

/// The first `cap` bytes of member `index` of the archive in `bytes` as the
/// zip crate decompresses it, or `None` where it fails before it has them.
pub uninterp spec fn zip_member_body(bytes: Seq<u8>, index: nat, cap: u64) -> Option<Seq<u8>>;

/// `ZipArchive::by_index`, its member's body read to its end or to `cap`
/// bytes, whichever comes first. What it yields depends on the archive's
/// bytes, the index and the cap alone, and is never longer than the cap; the
/// archive still holds its bytes.
#[verifier::external_body]
fn zip_body(archive: &mut ZipBytes, index: usize, cap: u64) -> (body: Result<Vec<u8>, std::io::Error>)
    ensures
        zip_source(*final(archive)) == zip_source(*old(archive)),
        match body {
            Ok(v) => zip_member_body(zip_source(*old(archive)), index as nat, cap) == Some(v@) && v@.len()
                <= cap,
            Err(_) => zip_member_body(zip_source(*old(archive)), index as nat, cap) is None,
        },
{
    let file = archive.by_index(index).map_err(std::io::Error::from)?;
    let mut out = Vec::new();
    std::io::Read::read_to_end(&mut std::io::Read::take(file, cap), &mut out).map(|_| out)
}

/// `b1` is `b0` untouched.
pub open spec fn budget_kept(b0: Budget, b1: Budget) -> bool {
    &&& b1.spec_limit() == b0.spec_limit()
    &&& b1.spec_remaining() == b0.spec_remaining()
    &&& b1.spec_exhausted() == b0.spec_exhausted()
}

/// `after`, `b1` and `outcome` are what placing a judged zip member comes to:
/// its body (a symlink's target) is read up to one byte past what is left of
/// the budget and spent from it; a body the budget does not cover outgrows
/// the load.
pub open spec fn zip_placed(
    before: Expansion,
    b0: Budget,
    bytes: Seq<u8>,
    index: nat,
    placing: Placing,
    mode: Option<u32>,
    after: Expansion,
    b1: Budget,
    outcome: Result<(), Error>,
) -> bool {
    match placing {
        Placing::Nothing => after == before && budget_kept(b0, b1) && outcome is Ok,
        Placing::Link { member } | Placing::File { member } => match zip_member_body(
            bytes,
            index,
            crate::stream::headroom(b0.spec_remaining()),
        ) {
            None => after == before && budget_kept(b0, b1) && (outcome matches Err(e)
                && is_decode_failure(before, b0.spec_exhausted(), b0.spec_limit(), e)),
            Some(body) => if body.len() <= b0.spec_remaining() {
                &&& b1.spec_limit() == b0.spec_limit()
                &&& b1.spec_remaining() == b0.spec_remaining() - body.len()
                &&& b1.spec_exhausted() == b0.spec_exhausted()
                &&& match placing {
                    Placing::Link { member } => link_placed(before, after, member@, body, outcome),
                    _ => is_inserted(
                        before,
                        after,
                        member@,
                        EntryView::File {
                            contents: body,
                            executable: mode matches Some(m) && m & 0o100 != 0,
                        },
                        outcome,
                    ),
                }
            } else {
                &&& after == before
                &&& b1.spec_limit() == b0.spec_limit()
                &&& b1.spec_remaining() == b0.spec_remaining()
                &&& b1.spec_exhausted()
                &&& outcome matches Err(Error::ArchiveTooLarge { path, limit }) && path@ == before.source@
                    && limit == b0.spec_limit()
            },
        },
    }
}

/// `after`, `b1` and `outcome` are what reading member `index` of the zip in
/// `bytes` comes to: a member the container cannot open is a decode failure;
/// any other is judged by [`Expansion::judge_zip_member`] and, where it places
/// anything, placed.
pub open spec fn zip_step(
    before: Expansion,
    b0: Budget,
    bytes: Seq<u8>,
    index: nat,
    after: Expansion,
    b1: Budget,
    outcome: Result<(), Error>,
) -> bool {
    if counts_exhausted(before) {
        after == before && budget_kept(b0, b1) && (outcome matches Err(e) && is_too_many(before, e))
    } else {
        match zip_member_meta(bytes, index) {
            None => after == before && budget_kept(b0, b1) && (outcome matches Err(e)
                && is_decode_failure(before, b0.spec_exhausted(), b0.spec_limit(), e)),
            Some(m) => exists|mid: Expansion, placing: Result<Placing, Error>|
                #[trigger] zip_judged(before, mid, m.name, m.mode, m.is_dir, m.is_symlink, placing)
                    && match placing {
                    Err(e) => after == mid && budget_kept(b0, b1) && outcome == Err::<(), Error>(e),
                    Ok(p) => zip_placed(mid, b0, bytes, index, p, m.mode, after, b1, outcome),
                },
        }
    }
}

/// `trace` holds the expansion and the budget before each of the first `n`
/// members of the zip in `bytes` and after the last of them, each member
/// read without a refusal.
pub open spec fn zip_trace(bytes: Seq<u8>, trace: Seq<(Expansion, Budget)>, n: int) -> bool {
    &&& 0 <= n
    &&& trace.len() == n + 1
    &&& forall|j: int|
        0 <= j < n ==> #[trigger] zip_step(
            trace[j].0,
            trace[j].1,
            bytes,
            j as nat,
            trace[j + 1].0,
            trace[j + 1].1,
            Ok(()),
        )
}

/// `after`, `b1` and `read` are what reading the zip in `bytes` from `before`
/// with budget `b0` comes to: an index that does not read is a decode
/// failure; one listing more than [`MAX_MEMBERS`](crate::archive::MAX_MEMBERS)
/// members is refused; otherwise every member is read in index order, or the
/// members before the `k`th are and the `k`th is refused or fails.
pub open spec fn zip_read_ends(
    before: Expansion,
    b0: Budget,
    bytes: Seq<u8>,
    after: Expansion,
    b1: Budget,
    read: Result<(), Error>,
) -> bool {
    match zip_index_len(bytes) {
        None => after == before && budget_kept(b0, b1) && (read matches Err(e) && is_decode_failure(
            before,
            b0.spec_exhausted(),
            b0.spec_limit(),
            e,
        )),
        Some(n) => if n > crate::archive::MAX_MEMBERS {
            after == before && budget_kept(b0, b1) && (read matches Err(e) && is_too_many(before, e))
        } else {
            match read {
                Ok(()) => exists|trace: Seq<(Expansion, Budget)>|
                    #[trigger] zip_trace(bytes, trace, n as int) && trace[0] == (before, b0) && trace.last()
                        == (after, b1),
                Err(e) => exists|k: int, trace: Seq<(Expansion, Budget)>|
                    #[trigger] zip_trace(bytes, trace, k) && trace[0] == (before, b0) && k < n
                        && zip_step(trace[k].0, trace[k].1, bytes, k as nat, after, b1, Err(e)),
            }
        },
    }
}

impl Expansion {
    /// Reads the members of a tar stream the load already decoded and spent
    /// from `budget`: every item the container yields, in order, each judged
    /// and placed (see [`tar_step`]), until the first refusal or failure,
    /// which is the answer.
    pub fn read_tar(&mut self, stream: &[u8], budget: &Budget) -> (read: Result<(), Error>)
        requires
            old(self).wf(),
        ensures
            final(self).wf(),
            tar_read_ends(
                *old(self),
                tar_entries(stream@),
                budget.spec_exhausted(),
                budget.spec_limit(),
                *final(self),
                read,
            ),
    {
        let mut items = tar_parse(stream);
        let ghost all = items@;
        let ghost seq = tar_entries(stream@);
        let ghost x = budget.spec_exhausted();
        let ghost l = budget.spec_limit();
        let n = items.len();
        let mut pending: Vec<Result<TarMember, std::io::Error>> = Vec::new();
        while items.len() > 0
            invariant
                items@.len() + pending@.len() == n,
                n == all.len(),
                items@ == all.take(items@.len() as int),
                forall|j: int| 0 <= j < pending@.len() ==> pending@[j] == all[n - 1 - j],
            decreases items.len(),
        {
            let ghost k = items@.len();
            let item = items.pop().unwrap();
            assert(item == all[k - 1]);
            assert(items@ =~= all.take(k - 1));
            pending.push(item);
        }
        let mut i: usize = 0;
        let ghost mut trace: Seq<Expansion> = seq![*self];
        while i < n
            invariant
                i <= n,
                n == all.len(),
                all.len() == seq.len(),
                seq == tar_entries(stream@),
                x == budget.spec_exhausted(),
                l == budget.spec_limit(),
                pending@.len() == n - i,
                forall|j: int| 0 <= j < pending@.len() ==> pending@[j] == all[n - 1 - j],
                forall|j: int|
                    0 <= j < all.len() ==> match #[trigger] all[j] {
                        Ok(m) => seq[j] == Some(m@),
                        Err(_) => seq[j] is None,
                    },
                self.wf(),
                tar_trace(seq, x, l, trace, i as int),
                trace[0] == *old(self),
                trace.last() == *self,
            decreases n - i,
        {
            let ghost before = *self;
            let item = pending.pop().unwrap();
            assert(item == all[i as int]);
            let stepped = match item {
                Err(e) => Err(self.decode(budget, e)),
                Ok(m) => self.tar_member(m, budget),
            };
            proof {
                match all[i as int] {
                    Ok(m) => assert(seq[i as int] == Some(m@)),
                    Err(_) => assert(seq[i as int] is None),
                }
                assert(tar_step(before, seq[i as int], x, l, *self, stepped));
            }
            match stepped {
                Err(e) => {
                    assert(tar_step(trace[i as int], seq[i as int], x, l, *self, Err(e)));
                    assert(tar_trace(seq, x, l, trace, i as int));
                    return Err(e);
                },
                Ok(()) => {
                    proof {
                        let ghost t0 = trace;
                        trace = trace.push(*self);
                        assert forall|j: int| 0 <= j < i + 1 implies #[trigger] tar_step(
                            trace[j],
                            seq[j],
                            x,
                            l,
                            trace[j + 1],
                            Ok(()),
                        ) by {
                            if j < i {
                                assert(trace[j] == t0[j] && trace[j + 1] == t0[j + 1]);
                                assert(tar_step(t0[j], seq[j], x, l, t0[j + 1], Ok(())));
                            }
                        }
                    }
                },
            }
            i = i + 1;
        }
        assert(tar_trace(seq, x, l, trace, seq.len() as int));
        Ok(())
    }

    /// Reads one tar member: [`tar_step`] for an item the container yielded.
    fn tar_member(&mut self, m: TarMember, budget: &Budget) -> (outcome: Result<(), Error>)
        requires
            old(self).wf(),
        ensures
            final(self).wf(),
            tar_step(
                *old(self),
                Some(m@),
                budget.spec_exhausted(),
                budget.spec_limit(),
                *final(self),
                outcome,
            ),
    {
        if self.members == usize::MAX || self.dropped_members == usize::MAX {
            return Err(Error::ArchiveTooManyMembers {
                path: self.source.clone(),
                limit: crate::archive::MAX_MEMBERS,
            });
        }
        let ghost before = *self;
        let ghost mv = m@;
        let TarMember { kind, path, link, mode, contents } = m;
        let placing = self.judge_tar_member(path.as_slice(), tar_kind(kind));
        let ghost mid = *self;
        let ghost judged = placing;
        let outcome = match placing {
            Err(e) => Err(e),
            Ok(Placing::Nothing) => Ok(()),
            Ok(Placing::Link { member }) => {
                let raw: Vec<u8> = match link {
                    Some(l) => l,
                    None => Vec::new(),
                };
                assert(raw@ =~= match mv.link {
                    Some(l) => l,
                    None => Seq::<u8>::empty(),
                });
                self.place_link(member, raw.as_slice())
            },
            Ok(Placing::File { member }) => {
                match mode {
                    Err(e) => Err(self.decode(budget, e)),
                    Ok(mode) => match contents {
                        Err(e) => Err(self.decode(budget, e)),
                        Ok(contents) => {
                            let executable = crate::archive::is_executable(mode);
                            self.insert(member, Entry::File { contents, executable })
                        },
                    },
                }
            },
        };
        assert(tar_judged(before, mid, mv.path, tar_kind_of(mv.kind), judged));
        outcome
    }

    /// Reads the members of a zip held in memory, spending each body it
    /// reads from `budget`: the index, then every member in index order,
    /// each judged and placed (see [`zip_step`]), until the first refusal or
    /// failure, which is the answer.
    pub fn read_zip(&mut self, bytes: Vec<u8>, budget: &mut Budget) -> (read: Result<(), Error>)
        requires
            old(self).wf(),
        ensures
            final(self).wf(),
            zip_read_ends(*old(self), *old(budget), bytes@, *final(self), *final(budget), read),
    {
        let ghost source = bytes@;
        let mut archive = match zip_open(bytes) {
            Ok(a) => a,
            Err(e) => return Err(self.decode(budget, e)),
        };
        let n = zip_len(&archive);
        match self.check_zip_len(n) {
            Ok(()) => {},
            Err(e) => return Err(e),
        }
        let ghost mut trace: Seq<(Expansion, Budget)> = seq![(*self, *budget)];
        let mut index: usize = 0;
        while index < n
            invariant
                index <= n,
                n <= crate::archive::MAX_MEMBERS,
                source == bytes@,
                zip_index_len(source) == Some(n as nat),
                zip_source(archive) == source,
                self.wf(),
                zip_trace(source, trace, index as int),
                trace[0] == (*old(self), *old(budget)),
                trace.last() == (*self, *budget),
            decreases n - index,
        {
            let ghost before = (*self, *budget);
            let stepped = self.zip_member(&mut archive, index, budget);
            match stepped {
                Err(e) => {
                    let ghost k = index as int;
                    assert(zip_step(trace[k].0, trace[k].1, source, k as nat, *self, *budget, Err(e)));
                    assert(zip_trace(source, trace, k));
                    assert(k < n);

                    return Err(e);
                },
                Ok(()) => {
                    proof {
                        let ghost t0 = trace;
                        trace = trace.push((*self, *budget));
                        assert forall|j: int| 0 <= j < index + 1 implies #[trigger] zip_step(
                            trace[j].0,
                            trace[j].1,
                            source,
                            j as nat,
                            trace[j + 1].0,
                            trace[j + 1].1,
                            Ok(()),
                        ) by {
                            if j < index {
                                assert(trace[j] == t0[j] && trace[j + 1] == t0[j + 1]);
                                assert(zip_step(t0[j].0, t0[j].1, source, j as nat, t0[j + 1].0, t0[j + 1].1, Ok(())));
                            }
                        }
                    }
                },
            }
            index = index + 1;
        }
        assert(zip_trace(source, trace, n as int));
        Ok(())
    }

    /// Reads member `index` of `archive`: [`zip_step`].
    fn zip_member(&mut self, archive: &mut ZipBytes, index: usize, budget: &mut Budget) -> (outcome: Result<(), Error>)
        requires
            old(self).wf(),
        ensures
            final(self).wf(),
            zip_source(*final(archive)) == zip_source(*old(archive)),
            zip_step(
                *old(self),
                *old(budget),
                zip_source(*old(archive)),
                index as nat,
                *final(self),
                *final(budget),
                outcome,
            ),
    {
        if self.members == usize::MAX || self.dropped_members == usize::MAX {
            return Err(Error::ArchiveTooManyMembers {
                path: self.source.clone(),
                limit: crate::archive::MAX_MEMBERS,
            });
        }
        let ghost before = *self;
        let ghost source = zip_source(*archive);
        let meta = match zip_meta(archive, index) {
            Ok(m) => m,
            Err(e) => return Err(self.decode(budget, e)),
        };
        let placing = self.judge_zip_member(meta.name.as_slice(), meta.mode, meta.is_dir, meta.is_symlink);
        let ghost mid = *self;
        let ghost judged = placing;
        assert(zip_judged(before, mid, meta@.name, meta@.mode, meta@.is_dir, meta@.is_symlink, judged));
        let (member, is_link) = match placing {
            Err(e) => return Err(e),
            Ok(Placing::Nothing) => return Ok(()),
            Ok(Placing::Link { member }) => (member, true),
            Ok(Placing::File { member }) => (member, false),
        };
        let remaining = budget.remaining();
        let cap = if remaining == u64::MAX {
            u64::MAX
        } else {
            remaining + 1
        };
        let body = match zip_body(archive, index, cap) {
            Ok(v) => v,
            Err(e) => return Err(self.decode(budget, e)),
        };
        if !budget.spend(body.len() as u64) {
            return Err(self.too_large(budget));
        }
        if is_link {
            self.place_link(member, body.as_slice())
        } else {
            let executable = match meta.mode {
                Some(m) => crate::archive::is_executable(m),
                None => false,
            };
            self.insert(member, Entry::File { contents: body, executable })
        }
    }

    /// Places a judged symlink member: [`link_placed`].
    fn place_link(&mut self, member: String, raw: &[u8]) -> (outcome: Result<(), Error>)
        requires
            old(self).wf(),
        ensures
            final(self).wf(),
            link_placed(*old(self), *final(self), member@, raw@, outcome),
    {
        let target = match self.utf8_target(member.as_str(), raw) {
            Ok(t) => t,
            Err(e) => return Err(e),
        };
        self.insert(member, Entry::Symlink { target })
    }
}

} // verus!
