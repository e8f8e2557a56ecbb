//! The rules an archive expansion holds its members to: which names project
//! and where, what `strip` drops, which kinds of member are written at all,
//! and when an expansion as a whole refuses. The decoding itself — tar, gzip,
//! zstd, zip — happens where the archive is read; each decoded member is
//! judged here.

use vstd::arithmetic::power2::{lemma2_to64, lemma_pow2_unfold, pow2};
use vstd::prelude::*;

use vstd::string::{StrSliceExecFns, StringExecFns};

use crate::containment::{
    is_plain_component, lemma_normalized_components_are_plain, lemma_normalized_under_normalized,
    lemma_plain_join_normalizes, ascii_lower, chars_of, contained_normalize, file_name, join_pieces, join_slash,
    path_file_name, slash_pieces, spec_contained_normalize, split_slash, to_ascii_lower,
};
use crate::entry::{Entry, EntryView};
use crate::error::Error;
use crate::limits::Budget;
use crate::manifest::position_of;
use crate::refusal::{Origin, OriginView, Refused};
use crate::text::{lossy_utf8, text_eq, utf8_lossy, utf8_text};

verus! {

/// How many members one archive may carry.
pub const MAX_MEMBERS: usize = 50_000;

/// How deep a member may nest once projected, counted in directories above
/// it and measured after `strip`.
pub const MAX_MEMBER_DEPTH: usize = 64;

/// The archive formats an archive source may be spelled in.
#[derive(Debug, Clone, Copy, PartialEq, Eq, Structural, PartialOrd, Ord)]
pub enum ArchiveFormat {
    /// An uncompressed tar archive: `.tar`.
    Tar,
    /// A gzip-compressed tar archive: `.tar.gz` or `.tgz`.
    TarGz,
    /// A zstd-compressed tar archive: `.tar.zst`.
    TarZst,
    /// A zip archive: `.zip`.
    Zip,
}

/// `name` with its ASCII letters folded to lowercase.
pub open spec fn lowered(name: Seq<char>) -> Seq<char> {
    Seq::new(name.len(), |i: int| ascii_lower(name[i]))
}

/// Whether lowercased `name` ends in `suffix` with something before it.
pub open spec fn names_suffix(name: Seq<char>, suffix: Seq<char>) -> bool {
    let lower = lowered(name);
    lower.len() > suffix.len() && lower.subrange(lower.len() - suffix.len(), lower.len() as int)
        == suffix
}

/// The format a file name's extension names, matched ASCII-case-insensitively
/// in this order: `.tar.gz`, `.tar.zst`, `.tgz`, `.tar`, `.zip`.
pub open spec fn spec_format_for_name(name: Seq<char>) -> Option<ArchiveFormat> {
    if names_suffix(name, seq!['.', 't', 'a', 'r', '.', 'g', 'z']) {
        Some(ArchiveFormat::TarGz)
    } else if names_suffix(name, seq!['.', 't', 'a', 'r', '.', 'z', 's', 't']) {
        Some(ArchiveFormat::TarZst)
    } else if names_suffix(name, seq!['.', 't', 'g', 'z']) {
        Some(ArchiveFormat::TarGz)
    } else if names_suffix(name, seq!['.', 't', 'a', 'r']) {
        Some(ArchiveFormat::Tar)
    } else if names_suffix(name, seq!['.', 'z', 'i', 'p']) {
        Some(ArchiveFormat::Zip)
    } else {
        None
    }
}

/// Whether `lower` is longer than `suffix` and ends in it.
fn ends_beyond(lower: &Vec<char>, suffix: &Vec<char>) -> (ends: bool)
    ensures
        ends == (lower@.len() > suffix@.len() && lower@.subrange(
            lower@.len() - suffix@.len(),
            lower@.len() as int,
        ) == suffix@),
{
    if lower.len() <= suffix.len() {
        return false;
    }
    let offset = lower.len() - suffix.len();
    let mut i: usize = 0;
    while i < suffix.len()
        invariant
            i <= suffix@.len(),
            offset + suffix@.len() == lower@.len(),
            offset + suffix.len() == lower.len(),
            forall|k: int| 0 <= k < i ==> lower@[offset + k] == suffix@[k],
        decreases suffix.len() - i,
    {
        if lower[offset + i] != suffix[i] {
            assert(lower@.subrange(offset as int, lower@.len() as int)[i as int] != suffix@[i as int]);
            return false;
        }
        i = i + 1;
    }
    assert(lower@.subrange(offset as int, lower@.len() as int) =~= suffix@);
    true
}

/// The format a file name's extension names, matched ASCII-case-insensitively
/// and never sniffed from the bytes, or `None` when it names none.
pub fn format_for_file_name(name: &str) -> (format: Option<ArchiveFormat>)
    ensures
        format == spec_format_for_name(name@),
{
    let chars = chars_of(name);
    let mut lower: Vec<char> = Vec::new();
    let mut i: usize = 0;
    while i < chars.len()
        invariant
            i <= chars@.len(),
            chars@ == name@,
            lower@ == lowered(name@).take(i as int),
        decreases chars.len() - i,
    {
        lower.push(to_ascii_lower(chars[i]));
        assert(lower@ =~= lowered(name@).take(i + 1));
        i = i + 1;
    }
    assert(lower@ =~= lowered(name@));
    let tar_gz = vec!['.', 't', 'a', 'r', '.', 'g', 'z'];
    let tar_zst = vec!['.', 't', 'a', 'r', '.', 'z', 's', 't'];
    let tgz = vec!['.', 't', 'g', 'z'];
    let tar = vec!['.', 't', 'a', 'r'];
    let zip = vec!['.', 'z', 'i', 'p'];
    assert(tar_gz@ =~= seq!['.', 't', 'a', 'r', '.', 'g', 'z']);
    assert(tar_zst@ =~= seq!['.', 't', 'a', 'r', '.', 'z', 's', 't']);
    assert(tgz@ =~= seq!['.', 't', 'g', 'z']);
    assert(tar@ =~= seq!['.', 't', 'a', 'r']);
    assert(zip@ =~= seq!['.', 'z', 'i', 'p']);
    if ends_beyond(&lower, &tar_gz) {
        Some(ArchiveFormat::TarGz)
    } else if ends_beyond(&lower, &tar_zst) {
        Some(ArchiveFormat::TarZst)
    } else if ends_beyond(&lower, &tgz) {
        Some(ArchiveFormat::TarGz)
    } else if ends_beyond(&lower, &tar) {
        Some(ArchiveFormat::Tar)
    } else if ends_beyond(&lower, &zip) {
        Some(ArchiveFormat::Zip)
    } else {
        None
    }
}

impl ArchiveFormat {
    /// The format `path`'s file name names, matched ASCII-case-insensitively
    /// and never sniffed from the bytes, or `None` when it names none or the
    /// path has no file name.
    pub fn for_path(path: &str) -> (format: Option<ArchiveFormat>)
        ensures
            format == match path_file_name(path@) {
                Some(name) => spec_format_for_name(name),
                None => None,
            },
    {
        match file_name(path) {
            Some(name) => format_for_file_name(name.as_str()),
            None => None,
        }
    }
}

/// The window cap that covers `limit` bytes, as the base-2 exponent zstd
/// takes: the least exponent whose power of two is at least `limit` (at least
/// one byte), clamped to the exponents the format spells, 10 through 31.
pub open spec fn is_window_log_max(limit: u64, log: u32) -> bool {
    let n = if limit == 0 {
        1
    } else {
        limit
    };
    &&& 10 <= log <= 31
    &&& log > 10 ==> pow2((log - 1) as nat) < n
    &&& log < 31 ==> pow2(log as nat) >= n
}

/// The window cap `limit` names, spelled the way zstd takes it: the base-2
/// exponent of a window size, rounded **up** to the power of two that covers
/// `limit` and clamped to the exponents the format spells. Rounding down would
/// refuse a frame whose window fits the bound; the clamp keeps a tiny bound
/// from naming a window no decoder accepts.
pub fn window_log_max(limit: u64) -> (log: u32)
    ensures
        is_window_log_max(limit, log),
{
    let n: u64 = if limit == 0 {
        1
    } else {
        limit
    };
    // The least exponent whose power of two covers `n`.
    let mut e: u32 = 0;
    let mut p: u128 = 1;
    proof {
        lemma2_to64();
    }
    while p < n as u128
        invariant
            e <= 64,
            p == pow2(e as nat),
            e > 0 ==> pow2((e - 1) as nat) < n,
            n >= 1,
            pow2(64) == 0x10000000000000000,
        decreases 64 - e,
    {
        proof {
            lemma_pow2_unfold((e + 1) as nat);
            if e == 64 {
                assert(false);
            }
        }
        p = p * 2;
        e = e + 1;
    }
    if e < 10 {
        proof {
            assert(pow2(10) >= pow2(e as nat)) by {
                vstd::arithmetic::power2::lemma_pow2_strictly_increases(e as nat, 10);
            }
        }
        10
    } else if e > 31 {
        proof {
            if 30 < e - 1 {
                vstd::arithmetic::power2::lemma_pow2_strictly_increases(30, (e - 1) as nat);
            }
        }
        31
    } else {
        e
    }
}

/// Whether a Unix mode carries the owner's execute bit.
pub fn is_executable(mode: u32) -> (executable: bool)
    ensures
        executable == (mode & 0o100 != 0),
{
    mode & 0o100 != 0
}


// ---- judging one member ----

/// `s` without the `/`s it ends in.
pub open spec fn spec_trim_trailing_slashes(s: Seq<char>) -> Seq<char>
    decreases s.len(),
{
    if s.len() > 0 && s.last() == '/' {
        spec_trim_trailing_slashes(s.drop_last())
    } else {
        s
    }
}

/// `s` without the leading `./`, however many times a writer spelled one; a
/// lone `.` left over is nothing.
pub open spec fn spec_without_dot_prefix(s: Seq<char>) -> Seq<char>
    decreases s.len(),
{
    if s.len() >= 2 && s[0] == '.' && s[1] == '/' {
        spec_without_dot_prefix(s.skip(2))
    } else if s == seq!['.'] {
        Seq::empty()
    } else {
        s
    }
}

/// Whether `s` names nothing but the archive's own top: `.`, `./.`, and so on.
pub open spec fn spec_names_only_dot(s: Seq<char>) -> bool {
    s.len() > 0 && spec_without_dot_prefix(s).len() == 0
}

/// What one member name comes to.
pub enum Admission {
    /// A directory member naming the archive's own top.
    Skipped,
    /// The name fails the containment gateway.
    Refused,
    /// `strip` left the name, normalized as `normalized`, with no path.
    Dropped { normalized: Seq<char> },
    /// The member projects deeper than a tree may carry.
    TooDeep { member: Seq<char> },
    /// The member projects to `member`, relative to the prefix.
    Admitted { member: Seq<char> },
}

/// How a member named `name` fares: a directory's trailing `/`s are dropped,
/// then any leading `./`; the rest passes the containment gateway; `strip`
/// leading components are dropped from what it normalizes to; and what is
/// left may nest at most [`MAX_MEMBER_DEPTH`] directories deep.
pub open spec fn spec_admission(name: Seq<char>, is_dir: bool, strip: nat) -> Admission {
    let spelled = if is_dir {
        spec_trim_trailing_slashes(name)
    } else {
        name
    };
    if is_dir && spec_names_only_dot(spelled) {
        Admission::Skipped
    } else {
        match spec_contained_normalize(spec_without_dot_prefix(spelled)) {
            None => Admission::Refused,
            Some(normalized) => {
                let components = split_slash(normalized);
                if strip >= components.len() {
                    Admission::Dropped { normalized }
                } else {
                    let kept = components.skip(strip as int);
                    if kept.len() - 1 > MAX_MEMBER_DEPTH {
                        Admission::TooDeep { member: join_slash(kept) }
                    } else {
                        Admission::Admitted { member: join_slash(kept) }
                    }
                }
            },
        }
    }
}

/// `texts` with `t` added, unless it is already there.
pub open spec fn with_text(texts: Seq<Seq<char>>, t: Seq<char>) -> Seq<Seq<char>> {
    if texts.contains(t) {
        texts
    } else {
        texts.push(t)
    }
}

/// Adds `text` to `texts` unless it is already there.
pub(crate) fn insert_text(texts: &mut Vec<String>, text: String)
    requires
        old(texts).deep_view().no_duplicates(),
    ensures
        final(texts).deep_view() == with_text(old(texts).deep_view(), text@),
        final(texts).deep_view().no_duplicates(),
{
    match position_of(texts, text.as_str()) {
        Some(i) => {
            assert(texts.deep_view()[i as int] == text@);
        },
        None => {
            let ghost before = texts.deep_view();
            texts.push(text);
            assert(texts.deep_view() =~= before.push(text@));
        },
    }
}

/// Where the text ends once its trailing `/`s are dropped.
fn trimmed_end(chars: &Vec<char>) -> (end: usize)
    ensures
        end <= chars@.len(),
        chars@.subrange(0, end as int) == spec_trim_trailing_slashes(chars@),
{
    let mut end = chars.len();
    assert(chars@.subrange(0, end as int) =~= chars@);
    while end > 0 && chars[end - 1] == '/'
        invariant
            end <= chars@.len(),
            spec_trim_trailing_slashes(chars@) == spec_trim_trailing_slashes(
                chars@.subrange(0, end as int),
            ),
        decreases end,
    {
        assert(chars@.subrange(0, end as int).drop_last() =~= chars@.subrange(0, end - 1));
        end = end - 1;
    }
    end
}

/// The span of `chars[..end]` left once its leading `./`s are dropped, empty
/// where a lone `.` is left.
fn dot_prefix_span(chars: &Vec<char>, end: usize) -> (span: (usize, usize))
    requires
        end <= chars@.len(),
    ensures
        span.0 <= span.1 <= end,
        chars@.subrange(span.0 as int, span.1 as int) == spec_without_dot_prefix(
            chars@.subrange(0, end as int),
        ),
{
    let mut start: usize = 0;
    while end - start >= 2 && chars[start] == '.' && chars[start + 1] == '/'
        invariant
            start <= end <= chars@.len(),
            spec_without_dot_prefix(chars@.subrange(0, end as int)) == spec_without_dot_prefix(
                chars@.subrange(start as int, end as int),
            ),
        decreases end - start,
    {
        assert(chars@.subrange(start as int, end as int).skip(2) =~= chars@.subrange(
            start + 2,
            end as int,
        ));
        start = start + 2;
    }
    let ghost rest = chars@.subrange(start as int, end as int);
    if end - start == 1 && chars[start] == '.' {
        assert(rest =~= seq!['.']);
        assert(chars@.subrange(end as int, end as int) =~= Seq::<char>::empty());
        (end, end)
    } else {
        assert(rest != seq!['.']) by {
            if end - start == 1 {
                assert(rest[0] == chars@[start as int]);
            }
        }
        (start, end)
    }
}

/// An archive member `strip` left with no path at all. One expansion is
/// identified by all four fields: the same archive expanded under two
/// prefixes, or at two `strip` counts, drops its members twice, and each drop
/// names the expansion that erased it.
#[derive(Debug)]
pub struct Dropped {
    /// The member's path as its archive spells it, normalized.
    pub member: String,
    /// Where in the destination the expansion places the archive; empty for
    /// an archive loaded on its own.
    pub prefix: String,
    /// The number of leading components `strip` was asked to drop.
    pub strip: u32,
    /// The archive that carried the member.
    pub origin: Origin,
}

/// What an expansion projects: its members keyed by where they land, and the
/// members `strip` erased.
#[derive(Debug)]
pub struct Expanded {
    pub tree: Vec<(String, Entry)>,
    pub dropped: Vec<Dropped>,
}

/// The kind a tar header gives a member, as far as an expansion tells kinds
/// apart.
#[derive(Debug, Clone, Copy, PartialEq, Eq, Structural)]
pub enum TarKind {
    Regular,
    Continuous,
    Symlink,
    Directory,
    /// A pax global header, which describes the archive rather than a member.
    GlobalHeader,
    /// Any other kind: a hardlink, a device node, a fifo, a GNU sparse member.
    Other,
}

/// The file-type bits of a Unix mode, read off the archive rather than a
/// filesystem.
pub const S_IFMT: u32 = 0o170_000;
pub const S_IFDIR: u32 = 0o040_000;
pub const S_IFREG: u32 = 0o100_000;
pub const S_IFLNK: u32 = 0o120_000;

/// One archive being expanded: where it comes from, how it projects, and what
/// its members came to so far.
pub struct Expansion {
    pub source: String,
    pub format: ArchiveFormat,
    pub strip: u32,
    pub prefix: String,
    /// Admitted members, keyed by where they land.
    pub tree: Vec<(String, Entry)>,
    /// Member names the containment gateway refused, each once.
    pub refused: Vec<String>,
    /// Normalized names `strip` erased, each once: two members carrying one
    /// name are one fact.
    pub dropped: Vec<String>,
    /// One count per dropped member: a name repeated across two members
    /// erased two of them.
    pub dropped_members: usize,
    /// Members met so far.
    pub members: usize,
}

/// The keys of `tree`.
pub open spec fn tree_keys(tree: Seq<(String, Entry)>) -> Seq<Seq<char>> {
    Seq::new(tree.len(), |i: int| tree[i].0@)
}

/// The key a member lands at under `prefix`: joined with `/` unless the prefix
/// is empty.
pub open spec fn prefixed(prefix: Seq<char>, member: Seq<char>) -> Seq<char> {
    if prefix.len() == 0 {
        member
    } else {
        prefix + seq!['/'] + member
    }
}

/// `after` is `before` once a member named `name` was judged, and `result` is
/// what judging it answered.
pub open spec fn admission_step(
    before: Expansion,
    after: Expansion,
    name: Seq<char>,
    is_dir: bool,
    result: Result<Option<String>, Error>,
) -> bool {
    &&& after.wf()
    &&& after.source == before.source
    &&& after.format == before.format
    &&& after.strip == before.strip
    &&& after.prefix == before.prefix
    &&& after.tree == before.tree
    &&& after.members == before.members
    &&& match spec_admission(name, is_dir, before.strip as nat) {
        Admission::Skipped => {
            &&& result matches Ok(None)
            &&& after.refused == before.refused
            &&& after.dropped == before.dropped
            &&& after.dropped_members == before.dropped_members
        },
        Admission::Refused => {
            &&& result matches Ok(None)
            &&& after.refused.deep_view() == with_text(before.refused.deep_view(), name)
            &&& after.dropped == before.dropped
            &&& after.dropped_members == before.dropped_members
        },
        Admission::Dropped { normalized } => {
            &&& result matches Ok(None)
            &&& after.refused == before.refused
            &&& is_dir ==> after.dropped == before.dropped && after.dropped_members
                == before.dropped_members
            &&& !is_dir ==> after.dropped.deep_view() == with_text(
                before.dropped.deep_view(),
                normalized,
            ) && after.dropped_members == before.dropped_members + 1
        },
        Admission::TooDeep { member } => {
            &&& result matches Err(Error::ArchiveMemberTooDeep { path, member: m, limit })
            &&& path@ == before.source@
            &&& m@ == member
            &&& limit == MAX_MEMBER_DEPTH
            &&& after.refused == before.refused
            &&& after.dropped == before.dropped
            &&& after.dropped_members == before.dropped_members
        },
        Admission::Admitted { member } => {
            &&& result matches Ok(Some(m))
            &&& m@ == member
            &&& after.refused == before.refused
            &&& after.dropped == before.dropped
            &&& after.dropped_members == before.dropped_members
        },
    }
}

/// `after` is `before` once a member projecting to `member` with value
/// `entry` was placed, and `result` is what placing it answered: a second
/// member landing on one key is refused and changes nothing.
pub open spec fn is_inserted(
    before: Expansion,
    after: Expansion,
    member: Seq<char>,
    entry: EntryView,
    result: Result<(), Error>,
) -> bool {
    &&& after.wf()
    &&& after.source == before.source
    &&& after.format == before.format
    &&& after.strip == before.strip
    &&& after.prefix == before.prefix
    &&& after.refused == before.refused
    &&& after.dropped == before.dropped
    &&& after.dropped_members == before.dropped_members
    &&& after.members == before.members
    &&& tree_keys(before.tree@).contains(prefixed(before.prefix@, member)) ==> {
        &&& result matches Err(Error::ArchiveMemberDuplicate { path, member: m })
        &&& path@ == before.source@
        &&& m@ == member
        &&& after.tree == before.tree
    }
    &&& !tree_keys(before.tree@).contains(prefixed(before.prefix@, member)) ==> {
        &&& result is Ok
        &&& after.tree@.len() == before.tree@.len() + 1
        &&& after.tree@.take(before.tree@.len() as int) == before.tree@
        &&& after.tree@.last().0@ == prefixed(before.prefix@, member)
        &&& after.tree@.last().1@ == entry
    }
}

impl Expansion {
    /// Nothing is listed twice.
    pub open spec fn wf(&self) -> bool {
        &&& tree_keys(self.tree@).no_duplicates()
        &&& self.refused.deep_view().no_duplicates()
        &&& self.dropped.deep_view().no_duplicates()
    }

    /// An expansion of the archive at `source` that has met no member yet.
    pub fn new(source: String, format: ArchiveFormat, strip: u32, prefix: String) -> (expansion:
        Expansion)
        ensures
            expansion.wf(),
            expansion.source == source,
            expansion.format == format,
            expansion.strip == strip,
            expansion.prefix == prefix,
            expansion.tree@.len() == 0,
            expansion.refused@.len() == 0,
            expansion.dropped@.len() == 0,
            expansion.dropped_members == 0,
            expansion.members == 0,
    {
        let e = Expansion {
            source,
            format,
            strip,
            prefix,
            tree: Vec::new(),
            refused: Vec::new(),
            dropped: Vec::new(),
            dropped_members: 0,
            members: 0,
        };
        assert(tree_keys(e.tree@) =~= Seq::empty());
        assert(e.refused.deep_view() =~= Seq::empty());
        assert(e.dropped.deep_view() =~= Seq::empty());
        e
    }

    /// Counts one more member, refusing an archive carrying more than
    /// [`MAX_MEMBERS`].
    pub fn count_member(&mut self) -> (counted: Result<(), Error>)
        requires
            old(self).members < usize::MAX,
        ensures
            final(self).members == old(self).members + 1,
            final(self).source == old(self).source,
            final(self).format == old(self).format,
            final(self).strip == old(self).strip,
            final(self).prefix == old(self).prefix,
            final(self).tree == old(self).tree,
            final(self).refused == old(self).refused,
            final(self).dropped == old(self).dropped,
            final(self).dropped_members == old(self).dropped_members,
            counted is Ok <==> old(self).members + 1 <= MAX_MEMBERS,
            counted is Err ==> (counted matches Err(Error::ArchiveTooManyMembers { path, limit })
                && path@ == old(self).source@ && limit == MAX_MEMBERS),
    {
        self.members = self.members + 1;
        if self.members > MAX_MEMBERS {
            return Err(Error::ArchiveTooManyMembers { path: self.source.clone(), limit: MAX_MEMBERS });
        }
        Ok(())
    }

    /// Judges one member name and returns the path it projects to, relative
    /// to the prefix; `Ok(None)` means the member contributes nothing. A name
    /// the gateway refuses is kept for the expansion's refusal; a name `strip`
    /// erases is kept as dropped where the member is not a directory.
    pub fn admit_member(&mut self, name: &str, is_dir: bool) -> (admitted: Result<Option<String>, Error>)
        requires
            old(self).wf(),
            old(self).dropped_members < usize::MAX,
        ensures
            admission_step(*old(self), *final(self), name@, is_dir, admitted),
    {
        let chars = chars_of(name);
        let end = if is_dir {
            trimmed_end(&chars)
        } else {
            chars.len()
        };
        assert(!is_dir ==> chars@.subrange(0, end as int) =~= name@);
        let (start, stop) = dot_prefix_span(&chars, end);
        if is_dir && end > 0 && start == stop {
            return Ok(None);
        }
        let spelled = name.substring_char(start, stop);
        let normalized = match contained_normalize(spelled) {
            None => {
                insert_text(&mut self.refused, String::from_str(name));
                return Ok(None);
            },
            Some(n) => n,
        };
        let nchars = chars_of(normalized.as_str());
        let pieces = slash_pieces(&nchars);
        let strip = self.strip as usize;
        if strip >= pieces.len() {
            if !is_dir {
                insert_text(&mut self.dropped, normalized);
                self.dropped_members = self.dropped_members + 1;
            }
            return Ok(None);
        }
        let mut kept: Vec<(usize, usize)> = Vec::new();
        let mut i: usize = strip;
        while i < pieces.len()
            invariant
                strip <= i <= pieces@.len(),
                kept@.len() == i - strip,
                forall|k: int| 0 <= k < kept@.len() ==> #[trigger] kept@[k] == pieces@[k + strip],
            decreases pieces.len() - i,
        {
            kept.push(pieces[i]);
            i = i + 1;
        }
        let ghost components = split_slash(normalized@);
        assert(Seq::new(
            kept@.len(),
            |k: int| nchars@.subrange(kept@[k].0 as int, kept@[k].1 as int),
        ) =~= components.skip(strip as int)) by {
            assert forall|k: int| 0 <= k < kept@.len() implies nchars@.subrange(
                kept@[k].0 as int,
                kept@[k].1 as int,
            ) == #[trigger] components.skip(strip as int)[k] by {
                assert(kept@[k] == pieces@[k + strip]);
            }
        }
        let member = join_pieces(&nchars, normalized.as_str(), &kept);
        if kept.len() - 1 > MAX_MEMBER_DEPTH {
            return Err(Error::ArchiveMemberTooDeep {
                path: self.source.clone(),
                member,
                limit: MAX_MEMBER_DEPTH,
            });
        }
        Ok(Some(member))
    }

    /// Places a member that projects to `member` under the prefix, refusing a
    /// second member landing on the same key.
    pub fn insert(&mut self, member: String, entry: Entry) -> (inserted: Result<(), Error>)
        requires
            old(self).wf(),
        ensures
            is_inserted(*old(self), *final(self), member@, entry@, inserted),
    {
        let key = if self.prefix.as_str().unicode_len() == 0 {
            member.clone()
        } else {
            let mut key = self.prefix.clone();
            key.append("/");
            key.append(member.as_str());
            proof {
                reveal_strlit("/");
            }
            key
        };
        assert(key@ == prefixed(self.prefix@, member@));
        let mut i: usize = 0;
        while i < self.tree.len()
            invariant
                i <= self.tree@.len(),
                *self == *old(self),
                self.wf(),
                key@ == prefixed(old(self).prefix@, member@),
                forall|k: int| 0 <= k < i ==> self.tree@[k].0@ != key@,
            decreases self.tree.len() - i,
        {
            if text_eq(self.tree[i].0.as_str(), key.as_str()) {
                assert(tree_keys(self.tree@)[i as int] == key@);
                return Err(Error::ArchiveMemberDuplicate { path: self.source.clone(), member });
            }
            i = i + 1;
        }
        let ghost before = self.tree@;
        assert(!tree_keys(before).contains(key@)) by {
            if tree_keys(before).contains(key@) {
                let k = choose|k: int| 0 <= k < tree_keys(before).len() && tree_keys(before)[k] == key@;
                assert(before[k].0@ == key@);
            }
        }
        self.tree.push((key, entry));
        assert(self.tree@.take(before.len() as int) =~= before);
        assert(tree_keys(self.tree@) =~= tree_keys(before).push(key@));
        Ok(())
    }

    /// Ends the expansion: the refusal of every name the gateway refused,
    /// labelled with the archive and the mapping `via` that named it; or a
    /// refusal of an expansion `strip` emptied; or what it projects.
    pub fn finish(self, via: Option<String>) -> (expanded: Result<Expanded, Error>)
        ensures
            self.refused@.len() > 0 ==> {
                &&& expanded matches Err(Error::Refused(Refused::Containment { paths, origin, .. }))
                &&& paths.deep_view() == self.refused.deep_view()
                &&& origin@ == (OriginView::Archive {
                    path: self.source@,
                    via: match via {
                        Some(v) => Some(v@),
                        None => None,
                    },
                })
            },
            self.refused@.len() == 0 && self.tree@.len() == 0 && self.dropped_members > 0 ==> {
                &&& expanded matches Err(Error::ArchiveFullyStripped { path, strip, dropped })
                &&& path@ == self.source@
                &&& strip == self.strip
                &&& dropped == self.dropped_members
            },
            self.refused@.len() == 0 && !(self.tree@.len() == 0 && self.dropped_members > 0) ==> {
                &&& expanded matches Ok(result)
                &&& result.tree == self.tree
                &&& result.dropped@.len() == self.dropped@.len()
                &&& forall|i: int|
                    0 <= i < result.dropped@.len() ==> {
                        &&& (#[trigger] result.dropped@[i]).member@ == self.dropped@[i]@
                        &&& result.dropped@[i].prefix@ == self.prefix@
                        &&& result.dropped@[i].strip == self.strip
                        &&& result.dropped@[i].origin@ == (OriginView::Archive {
                            path: self.source@,
                            via: match via {
                                Some(v) => Some(v@),
                                None => None,
                            },
                        })
                    }
            },
    {
        let origin = Origin::Archive { path: self.source.clone(), via };
        if self.refused.len() > 0 {
            return Err(Error::Refused(Refused::Containment { paths: self.refused, below: Vec::new(), origin }));
        }
        if self.tree.len() == 0 && self.dropped_members > 0 {
            return Err(Error::ArchiveFullyStripped {
                path: self.source,
                strip: self.strip,
                dropped: self.dropped_members,
            });
        }
        let mut dropped: Vec<Dropped> = Vec::new();
        let mut i: usize = 0;
        while i < self.dropped.len()
            invariant
                i <= self.dropped@.len(),
                dropped@.len() == i,
                forall|k: int|
                    0 <= k < i ==> {
                        &&& (#[trigger] dropped@[k]).member@ == self.dropped@[k]@
                        &&& dropped@[k].prefix@ == self.prefix@
                        &&& dropped@[k].strip == self.strip
                        &&& dropped@[k].origin@ == origin@
                    },
            decreases self.dropped.len() - i,
        {
            dropped.push(
                Dropped {
                    member: self.dropped[i].clone(),
                    prefix: self.prefix.clone(),
                    strip: self.strip,
                    origin: origin.duplicate(),
                },
            );
            i = i + 1;
        }
        Ok(Expanded { tree: self.tree, dropped })
    }

    /// Refuses a tar member of a kind the projection never writes: anything
    /// but a regular or contiguous file, a symlink, or a directory.
    pub fn check_tar_kind(&self, name: &str, kind: TarKind) -> (checked: Result<(), Error>)
        ensures
            checked is Ok <==> (kind == TarKind::Regular || kind == TarKind::Continuous || kind
                == TarKind::Symlink || kind == TarKind::Directory),
            checked is Err ==> (checked matches Err(Error::ArchiveMemberKind { path, member })
                && path@ == self.source@ && member@ == name@),
    {
        match kind {
            TarKind::Regular | TarKind::Continuous | TarKind::Symlink | TarKind::Directory => Ok(()),
            _ => Err(Error::ArchiveMemberKind { path: self.source.clone(), member: String::from_str(name) }),
        }
    }

    /// Holds a zip member's two spellings of its kind to each other: the
    /// trailing `/` that makes it a directory, and the file-type bits of the
    /// Unix mode it may also record. A mode naming a kind the projection never
    /// writes refuses the member outright.
    pub fn check_zip_kind(&self, name: &str, mode: Option<u32>, is_dir: bool) -> (checked: Result<
        (),
        Error,
    >)
        ensures
            match spec_zip_kind_agrees(mode, is_dir) {
                Some(true) => checked is Ok,
                Some(false) => checked matches Err(Error::ArchiveMemberKindDisagrees { path, member })
                    && path@ == self.source@ && member@ == name@,
                None => checked matches Err(Error::ArchiveMemberKind { path, member })
                    && path@ == self.source@ && member@ == name@,
            },
    {
        let agrees = match mode {
            None => true,
            Some(m) => {
                let kind = m & S_IFMT;
                if kind == 0 {
                    true
                } else if kind == S_IFDIR {
                    is_dir
                } else if kind == S_IFREG || kind == S_IFLNK {
                    !is_dir
                } else {
                    return Err(
                        Error::ArchiveMemberKind { path: self.source.clone(), member: String::from_str(name) },
                    );
                }
            },
        };
        if !agrees {
            return Err(
                Error::ArchiveMemberKindDisagrees { path: self.source.clone(), member: String::from_str(name) },
            );
        }
        Ok(())
    }

    /// Refuses a zip file larger on disk than what is left of the budget: its
    /// index is read whole before any member, and cannot outgrow the file.
    pub fn check_zip_file(&self, on_disk: u64, budget: &Budget) -> (checked: Result<(), Error>)
        ensures
            checked is Ok <==> on_disk <= budget.spec_remaining(),
            checked is Err ==> (checked matches Err(
                Error::ArchiveFileTooLarge { path, size, remaining, limit },
            ) && path@ == self.source@ && size == on_disk && remaining == budget.spec_remaining()
                && limit == budget.spec_limit()),
    {
        if on_disk > budget.remaining() {
            return Err(
                Error::ArchiveFileTooLarge {
                    path: self.source.clone(),
                    size: on_disk,
                    remaining: budget.remaining(),
                    limit: budget.limit(),
                },
            );
        }
        Ok(())
    }

    /// Refuses a zip whose index lists more than [`MAX_MEMBERS`] members.
    pub fn check_zip_len(&self, len: usize) -> (checked: Result<(), Error>)
        ensures
            checked is Ok <==> len <= MAX_MEMBERS,
            checked is Err ==> (checked matches Err(Error::ArchiveTooManyMembers { path, limit })
                && path@ == self.source@ && limit == MAX_MEMBERS),
    {
        if len > MAX_MEMBERS {
            return Err(Error::ArchiveTooManyMembers { path: self.source.clone(), limit: MAX_MEMBERS });
        }
        Ok(())
    }

    /// A member name as text, refusing one that is not UTF-8.
    pub fn utf8_name(&self, raw: &[u8]) -> (name: Result<String, Error>)
        ensures
            vstd::utf8::valid_utf8(raw@) ==> (name matches Ok(n) && n@ == vstd::utf8::decode_utf8(
                raw@,
            )),
            !vstd::utf8::valid_utf8(raw@) ==> (name matches Err(
                Error::ArchiveMemberNameNotUtf8 { path, name: lossy },
            ) && path@ == self.source@ && lossy@ == lossy_utf8(raw@)),
    {
        match utf8_text(raw) {
            Some(text) => Ok(text),
            None => Err(Error::ArchiveMemberNameNotUtf8 { path: self.source.clone(), name: utf8_lossy(raw) }),
        }
    }

    /// A symlink member's target as text, refusing one that is not UTF-8.
    pub fn utf8_target(&self, member: &str, raw: &[u8]) -> (target: Result<String, Error>)
        ensures
            vstd::utf8::valid_utf8(raw@) ==> (target matches Ok(t) && t@ == vstd::utf8::decode_utf8(
                raw@,
            )),
            !vstd::utf8::valid_utf8(raw@) ==> (target matches Err(
                Error::ArchiveMemberTargetNotUtf8 { path, member: m, target: lossy },
            ) && path@ == self.source@ && m@ == member@ && lossy@ == lossy_utf8(raw@)),
    {
        match utf8_text(raw) {
            Some(text) => Ok(text),
            None => Err(
                Error::ArchiveMemberTargetNotUtf8 {
                    path: self.source.clone(),
                    member: String::from_str(member),
                    target: utf8_lossy(raw),
                },
            ),
        }
    }

    /// The refusal of an expansion that outgrew what one load may hold.
    pub fn too_large(&self, budget: &Budget) -> (error: Error)
        ensures
            error matches Error::ArchiveTooLarge { path, limit } && path@ == self.source@ && limit
                == budget.spec_limit(),
    {
        Error::ArchiveTooLarge { path: self.source.clone(), limit: budget.limit() }
    }

    /// What a decoder's failure means: the budget running out, where it has,
    /// since a reader refusing past the budget surfaces as a decode error;
    /// otherwise bytes that do not decode as the format.
    pub fn decode(&self, budget: &Budget, source: std::io::Error) -> (error: Error)
        ensures
            budget.spec_exhausted() ==> (error matches Error::ArchiveTooLarge { path, limit }
                && path@ == self.source@ && limit == budget.spec_limit()),
            !budget.spec_exhausted() ==> (error matches Error::ArchiveDecode {
                path,
                format,
                source: s,
            } && path@ == self.source@ && format == self.format && s == source),
    {
        if budget.exhausted() {
            return self.too_large(budget);
        }
        Error::ArchiveDecode { path: self.source.clone(), format: self.format, source }
    }
}

/// Whether a zip member's Unix mode agrees with its trailing `/`: `Some` of
/// the answer, or `None` where the mode names a kind the projection never
/// writes. No mode, or mode bits naming no kind, agree with either spelling.
pub open spec fn spec_zip_kind_agrees(mode: Option<u32>, is_dir: bool) -> Option<bool> {
    match mode {
        None => Some(true),
        Some(m) => {
            let kind = m & S_IFMT;
            if kind == 0 {
                Some(true)
            } else if kind == S_IFDIR {
                Some(is_dir)
            } else if kind == S_IFREG || kind == S_IFLNK {
                Some(!is_dir)
            } else {
                None
            }
        },
    }
}

/// Where a judged member goes next.
#[derive(Debug)]
pub enum Placing {
    /// The member contributes nothing.
    Nothing,
    /// A symlink projecting to `member`, once its target is read.
    Link { member: String },
    /// A file projecting to `member`, once its body is read.
    File { member: String },
}

/// What judging a member answered, as a placing: a directory places nothing
/// even where its name was admitted.
pub open spec fn placed(judged: Result<Option<String>, Error>, is_dir: bool, is_link: bool) -> Result<
    Placing,
    Error,
> {
    match judged {
        Err(e) => Err(e),
        Ok(None) => Ok(Placing::Nothing),
        Ok(Some(member)) => if is_dir {
            Ok(Placing::Nothing)
        } else if is_link {
            Ok(Placing::Link { member })
        } else {
            Ok(Placing::File { member })
        },
    }
}

/// Whether a tar member of this kind is a directory.
pub open spec fn tar_kind_is_dir(kind: TarKind) -> bool {
    kind == TarKind::Directory
}

/// Whether a tar member of this kind is a symlink.
pub open spec fn tar_kind_is_link(kind: TarKind) -> bool {
    kind == TarKind::Symlink
}

/// `e` with one more member counted.
pub open spec fn counted(e: Expansion) -> Expansion {
    Expansion { members: (e.members + 1) as usize, ..e }
}

/// `after` is `before` once the tar header naming `raw` with kind `kind` was
/// judged, and `placing` is where the member goes next.
pub open spec fn tar_judged(
    before: Expansion,
    after: Expansion,
    raw: Seq<u8>,
    kind: TarKind,
    placing: Result<Placing, Error>,
) -> bool {
    &&& after.wf()
    &&& kind == TarKind::GlobalHeader ==> (placing matches Ok(Placing::Nothing)) && after
        == before
    &&& kind != TarKind::GlobalHeader ==> after.members == before.members + 1
    &&& kind != TarKind::GlobalHeader && before.members + 1 > MAX_MEMBERS ==> (placing matches Err(
        Error::ArchiveTooManyMembers { .. }
    ))
    &&& kind != TarKind::GlobalHeader && before.members + 1 <= MAX_MEMBERS
        && !vstd::utf8::valid_utf8(raw) ==> (placing matches Err(
        Error::ArchiveMemberNameNotUtf8 { .. }
    ))
    &&& kind != TarKind::GlobalHeader && before.members + 1 <= MAX_MEMBERS
        && vstd::utf8::valid_utf8(raw) && !(kind == TarKind::Regular || kind
        == TarKind::Continuous || kind == TarKind::Symlink || kind == TarKind::Directory)
        ==> (placing matches Err(Error::ArchiveMemberKind { path, member }) && member@
        == vstd::utf8::decode_utf8(raw))
    &&& (kind == TarKind::Regular || kind == TarKind::Continuous || kind == TarKind::Symlink
        || kind == TarKind::Directory) && before.members + 1 <= MAX_MEMBERS
        && vstd::utf8::valid_utf8(raw) ==> exists|judged: Result<Option<String>, Error>|
        {
            &&& #[trigger] admission_step(
                counted(before),
                after,
                vstd::utf8::decode_utf8(raw),
                tar_kind_is_dir(kind),
                judged,
            )
            &&& placing == placed(judged, tar_kind_is_dir(kind), tar_kind_is_link(kind))
        }
}

/// `after` is `before` once the zip member naming `raw`, with Unix mode
/// `mode` and the kind its name and flags spell, was judged, and `placing` is
/// where the member goes next.
pub open spec fn zip_judged(
    before: Expansion,
    after: Expansion,
    raw: Seq<u8>,
    mode: Option<u32>,
    is_dir: bool,
    is_link: bool,
    placing: Result<Placing, Error>,
) -> bool {
    &&& after.wf()
    &&& after.members == before.members + 1
    &&& before.members + 1 > MAX_MEMBERS ==> (placing matches Err(
        Error::ArchiveTooManyMembers { .. }
    ))
    &&& before.members + 1 <= MAX_MEMBERS && !vstd::utf8::valid_utf8(raw) ==> (placing matches Err(
        Error::ArchiveMemberNameNotUtf8 { .. }
    ))
    &&& before.members + 1 <= MAX_MEMBERS && vstd::utf8::valid_utf8(raw)
        && spec_zip_kind_agrees(mode, is_dir) is None ==> (placing matches Err(
        Error::ArchiveMemberKind { .. }
    ))
    &&& before.members + 1 <= MAX_MEMBERS && vstd::utf8::valid_utf8(raw)
        && spec_zip_kind_agrees(mode, is_dir) == Some(false) ==> (placing matches Err(
        Error::ArchiveMemberKindDisagrees { .. }
    ))
    &&& before.members + 1 <= MAX_MEMBERS && vstd::utf8::valid_utf8(raw)
        && spec_zip_kind_agrees(mode, is_dir) == Some(true) ==> exists|judged: Result<Option<String>, Error>|
        {
            &&& #[trigger] admission_step(
                counted(before),
                after,
                vstd::utf8::decode_utf8(raw),
                is_dir,
                judged,
            )
            &&& placing == placed(judged, is_dir, is_link)
        }
}

impl Expansion {
    /// Judges one tar header: a global header is skipped uncounted; every
    /// other one counts as a member, must be named in UTF-8 and be of a kind
    /// the projection writes, and then passes [`admit_member`](Self::admit_member).
    pub fn judge_tar_member(&mut self, raw: &[u8], kind: TarKind) -> (placing: Result<
        Placing,
        Error,
    >)
        requires
            old(self).wf(),
            old(self).members < usize::MAX,
            old(self).dropped_members < usize::MAX,
        ensures
            tar_judged(*old(self), *final(self), raw@, kind, placing),
    {
        if kind == TarKind::GlobalHeader {
            return Ok(Placing::Nothing);
        }
        self.count_member()?;
        let name = self.utf8_name(raw)?;
        self.check_tar_kind(name.as_str(), kind)?;
        let is_dir = kind == TarKind::Directory;
        assert(*self == counted(*old(self)));
        let judged = self.admit_member(name.as_str(), is_dir);
        let ghost witness = judged;
        let placing = match judged {
            Err(e) => Err(e),
            Ok(None) => Ok(Placing::Nothing),
            Ok(Some(member)) => {
                if is_dir {
                    Ok(Placing::Nothing)
                } else if kind == TarKind::Symlink {
                    Ok(Placing::Link { member })
                } else {
                    Ok(Placing::File { member })
                }
            },
        };
        assert(placing == placed(witness, tar_kind_is_dir(kind), tar_kind_is_link(kind)));
        assert(admission_step(
            counted(*old(self)),
            *self,
            vstd::utf8::decode_utf8(raw@),
            tar_kind_is_dir(kind),
            witness,
        ));
        placing
    }

    /// Judges one zip member: it counts, must be named in UTF-8, must spell
    /// its kind the same way by its trailing `/` and its Unix mode, and then
    /// passes [`admit_member`](Self::admit_member).
    pub fn judge_zip_member(
        &mut self,
        raw: &[u8],
        mode: Option<u32>,
        is_dir: bool,
        is_link: bool,
    ) -> (placing: Result<Placing, Error>)
        requires
            old(self).wf(),
            old(self).members < usize::MAX,
            old(self).dropped_members < usize::MAX,
        ensures
            zip_judged(*old(self), *final(self), raw@, mode, is_dir, is_link, placing),
    {
        self.count_member()?;
        let name = self.utf8_name(raw)?;
        self.check_zip_kind(name.as_str(), mode, is_dir)?;
        assert(*self == counted(*old(self)));
        let judged = self.admit_member(name.as_str(), is_dir);
        match judged {
            Err(e) => Err(e),
            Ok(None) => Ok(Placing::Nothing),
            Ok(Some(member)) => {
                if is_dir {
                    Ok(Placing::Nothing)
                } else if is_link {
                    Ok(Placing::Link { member })
                } else {
                    Ok(Placing::File { member })
                }
            },
        }
    }
}


/// Every member an expansion admits lands at a normalized path, whatever the
/// archive spells: the name passes the containment gateway before `strip`
/// drops anything, and what `strip` leaves of a normalized path is one.
pub proof fn lemma_admitted_members_are_normalized(name: Seq<char>, is_dir: bool, strip: nat)
    requires
        spec_admission(name, is_dir, strip) is Admitted,
    ensures
        spec_contained_normalize(spec_admission(name, is_dir, strip)->Admitted_member) == Some(
            spec_admission(name, is_dir, strip)->Admitted_member,
        ),
{
    let spelled = if is_dir {
        spec_trim_trailing_slashes(name)
    } else {
        name
    };
    let judged = spec_without_dot_prefix(spelled);
    lemma_normalized_components_are_plain(judged);
    let n = spec_contained_normalize(judged)->0;
    let kept = split_slash(n).skip(strip as int);
    assert forall|j: int| 0 <= j < kept.len() implies is_plain_component(#[trigger] kept[j]) by {
        assert(kept[j] == split_slash(n)[j + strip]);
    }
    lemma_plain_join_normalizes(kept);
}

/// Every key an expansion places lands at a normalized path when its prefix
/// is one or is empty: a member under `vendor/` can reach nothing outside it.
pub proof fn lemma_placed_keys_are_normalized(prefix: Seq<char>, name: Seq<char>, is_dir: bool, strip: nat)
    requires
        prefix.len() == 0 || spec_contained_normalize(prefix) == Some(prefix),
        spec_admission(name, is_dir, strip) is Admitted,
    ensures
        spec_contained_normalize(prefixed(prefix, spec_admission(name, is_dir, strip)->Admitted_member))
            == Some(prefixed(prefix, spec_admission(name, is_dir, strip)->Admitted_member)),
{
    lemma_admitted_members_are_normalized(name, is_dir, strip);
    if prefix.len() > 0 {
        lemma_normalized_under_normalized(prefix, spec_admission(name, is_dir, strip)->Admitted_member);
    }
}

} // verus!
