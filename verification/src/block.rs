//! The region mechanics behind [`EntryKind::Block`]: locating a marker line
//! in a container's bytes, splicing a body in, and stripping one out.
//!
//! Every function here is pure over bytes. The bytes outside the region are
//! moved by range and never parsed, compared, or passed through a pattern
//! substitution, so writing a region cannot disturb them however they are
//! spelled.

use std::ops::Range;

use vstd::prelude::*;
use vstd::string::StringSliceAdditionalSpecFns;

use crate::entry::{EntryKind, Placement};
use crate::refusal::BlockFault;

verus! {

/// Whether offset `i` of `b` starts a line: offset zero, or the byte after a
/// `\n`.
pub open spec fn is_line_start(b: Seq<u8>, i: int) -> bool {
    i == 0 || (0 < i <= b.len() && b[i - 1] == 10u8)
}

/// When the bytes of `b` at `start` are the marker `m` followed by a line
/// terminator — `\n`, `\r\n`, or the end of `b` — the offset just past that
/// terminator.
pub open spec fn line_end_after(b: Seq<u8>, m: Seq<u8>, start: int) -> Option<int> {
    let after = start + m.len();
    if 0 <= start && after <= b.len() && b.subrange(start, after) == m {
        if after == b.len() {
            Some(after)
        } else if b[after] == 10u8 {
            Some(after + 1)
        } else if b[after] == 13u8 && after + 1 < b.len() && b[after + 1] == 10u8 {
            Some(after + 2)
        } else {
            None
        }
    } else {
        None
    }
}

/// A marker occurrence is a whole line: anchored at a line start, matched
/// byte-exact, and terminated by `\n`, `\r\n`, or the end of the bytes. The
/// empty marker has no occurrence.
pub open spec fn is_occurrence(b: Seq<u8>, m: Seq<u8>, s: int) -> bool {
    &&& m.len() > 0
    &&& is_line_start(b, s)
    &&& line_end_after(b, m, s) is Some
}

/// Whether `b` holds any marker occurrence.
pub open spec fn has_occurrence(b: Seq<u8>, m: Seq<u8>) -> bool {
    exists|s: int| is_occurrence(b, m, s)
}

/// `s` is the first occurrence.
pub open spec fn is_first_occurrence(b: Seq<u8>, m: Seq<u8>, s: int) -> bool {
    &&& is_occurrence(b, m, s)
    &&& forall|t: int| t < s ==> !is_occurrence(b, m, t)
}

/// `s` is the last occurrence.
pub open spec fn is_last_occurrence(b: Seq<u8>, m: Seq<u8>, s: int) -> bool {
    &&& is_occurrence(b, m, s)
    &&& forall|t: int| s < t ==> !is_occurrence(b, m, t)
}

/// How many occurrences start below offset `n`.
pub open spec fn occurrences_below(b: Seq<u8>, m: Seq<u8>, n: int) -> nat
    decreases n,
{
    if n <= 0 {
        0
    } else {
        occurrences_below(b, m, n - 1) + if is_occurrence(b, m, n - 1) {
            1nat
        } else {
            0nat
        }
    }
}

/// How many occurrences `b` holds: every one starts at or before its end.
pub open spec fn occurrence_total(b: Seq<u8>, m: Seq<u8>) -> nat {
    occurrences_below(b, m, b.len() as int + 1)
}

/// Empty, or ending with `\n`.
pub open spec fn spec_newline_terminated(b: Seq<u8>) -> bool {
    b.len() == 0 || b.last() == 10u8
}

/// The plan-time refusal a block earns from its marker bytes `m`, its
/// placement and its body, in the order the rules are checked.
pub open spec fn spec_entry_fault(m: Seq<u8>, placement: Placement, body: Seq<u8>) -> Option<
    BlockFault,
> {
    if m.len() == 0 {
        Some(BlockFault::MarkerEmpty)
    } else if m.contains(10u8) || m.contains(13u8) {
        Some(BlockFault::MarkerNotOneLine)
    } else if m[0] == 32u8 || m[0] == 9u8 || m.last() == 32u8 || m.last() == 9u8 {
        Some(BlockFault::MarkerEdgeWhitespace)
    } else if has_occurrence(body, m) {
        Some(BlockFault::BodyCarriesMarker)
    } else if placement == Placement::Prepend && !spec_newline_terminated(body) {
        Some(BlockFault::BodyNotNewlineTerminated)
    } else {
        None
    }
}

/// What a block write puts on disk: the author's side and the body either
/// side of the marker line.
pub open spec fn spec_splice(author: Seq<u8>, m: Seq<u8>, placement: Placement, body: Seq<u8>) -> Seq<
    u8,
> {
    match placement {
        Placement::Append => author + m + seq![10u8] + body,
        Placement::Prepend => body + m + seq![10u8] + author,
    }
}

/// The bytes outside `extent`.
pub open spec fn spec_strip(b: Seq<u8>, start: int, end: int) -> Seq<u8> {
    b.subrange(0, start) + b.subrange(end, b.len() as int)
}

/// Where a marker occurrence puts the region in a container's bytes.
#[derive(Debug, PartialEq, Eq)]
pub struct Region {
    /// The region's whole extent — the marker line and the body together.
    /// Stripping this range leaves the author's side exactly.
    pub extent: Range<usize>,
    /// The body's extent, inside [`extent`](Self::extent).
    pub body: Range<usize>,
}

/// `region` is where the projection's region sits in `b` under marker `m`:
/// after the last occurrence to the end for [`Placement::Append`], before
/// the first occurrence from the start for [`Placement::Prepend`].
pub open spec fn is_region(b: Seq<u8>, m: Seq<u8>, placement: Placement, region: Region) -> bool {
    match placement {
        Placement::Append => {
            &&& is_last_occurrence(b, m, region.extent.start as int)
            &&& line_end_after(b, m, region.extent.start as int) == Some(region.body.start as int)
            &&& region.extent.end == b.len()
            &&& region.body.end == b.len()
        },
        Placement::Prepend => {
            &&& is_first_occurrence(b, m, region.body.end as int)
            &&& line_end_after(b, m, region.body.end as int) == Some(region.extent.end as int)
            &&& region.extent.start == 0
            &&& region.body.start == 0
        },
    }
}

/// The marker and placement of a [`Block`](EntryKind::Block) kind; `None` for
/// every other kind.
pub fn block_kind(kind: &EntryKind) -> (found: Option<(&str, Placement)>)
    ensures
        match kind {
            EntryKind::Block { marker, placement } => found matches Some((m, p)) && m@ == marker@
                && p == *placement,
            _ => found is None,
        },
{
    match kind {
        EntryKind::Block { marker, placement } => Some((marker.as_str(), *placement)),
        EntryKind::File | EntryKind::Symlink => None,
    }
}

/// Whether `bytes` holds `byte` anywhere.
fn holds_byte(bytes: &[u8], byte: u8) -> (held: bool)
    ensures
        held == bytes@.contains(byte),
{
    let mut i: usize = 0;
    while i < bytes.len()
        invariant
            i <= bytes.len(),
            forall|k: int| 0 <= k < i ==> bytes@[k] != byte,
        decreases bytes.len() - i,
    {
        if bytes[i] == byte {
            return true;
        }
        i = i + 1;
    }
    false
}

/// The plan-time refusals a desired block earns from its own fields alone —
/// the marker rules and the body rules of [`EntryKind::Block`].
pub fn entry_fault(marker: &str, placement: Placement, body: &[u8]) -> (fault: Option<BlockFault>)
    ensures
        fault == spec_entry_fault(marker.spec_bytes(), placement, body@),
{
    let m = marker.as_bytes();
    if m.len() == 0 {
        return Some(BlockFault::MarkerEmpty);
    }
    if holds_byte(m, 10u8) || holds_byte(m, 13u8) {
        return Some(BlockFault::MarkerNotOneLine);
    }
    let first = m[0];
    let last = m[m.len() - 1];
    if first == 32u8 || first == 9u8 || last == 32u8 || last == 9u8 {
        return Some(BlockFault::MarkerEdgeWhitespace);
    }
    if occurrence(body, m, Which::First).is_some() {
        return Some(BlockFault::BodyCarriesMarker);
    }
    let prepended = match placement {
        Placement::Prepend => true,
        Placement::Append => false,
    };
    if prepended && !newline_terminated(body) {
        return Some(BlockFault::BodyNotNewlineTerminated);
    }
    None
}

/// Whether `bytes` are empty or end with `\n` — what
/// [`Append`](Placement::Append) requires of the author's side and
/// [`Prepend`](Placement::Prepend) of the body, so that the marker line the
/// other side follows with begins at a line start.
pub fn newline_terminated(bytes: &[u8]) -> (terminated: bool)
    ensures
        terminated == spec_newline_terminated(bytes@),
{
    bytes.len() == 0 || bytes[bytes.len() - 1] == 10u8
}

/// The projection's region in `container`, or `None` where the container
/// holds no marker occurrence. The body may carry no line equal to the marker,
/// so the projection's own marker is the last occurrence under
/// [`Append`](Placement::Append) and the first under
/// [`Prepend`](Placement::Prepend).
pub fn locate(container: &[u8], marker: &str, placement: Placement) -> (region: Option<Region>)
    ensures
        region is None <==> !has_occurrence(container@, marker.spec_bytes()),
        region matches Some(r) ==> is_region(container@, marker.spec_bytes(), placement, r),
{
    let m = marker.as_bytes();
    match placement {
        Placement::Append => {
            let (start, line_end) = occurrence(container, m, Which::Last)?;
            Some(Region { extent: start..container.len(), body: line_end..container.len() })
        },
        Placement::Prepend => {
            let (start, line_end) = occurrence(container, m, Which::First)?;
            Some(Region { extent: 0..line_end, body: 0..start })
        },
    }
}

/// How many whole-line marker occurrences `container` holds. An empty marker
/// holds none.
pub fn occurrence_count(container: &[u8], marker: &str) -> (count: usize)
    ensures
        count == occurrence_total(container@, marker.spec_bytes()),
{
    let m = marker.as_bytes();
    let ghost b = container@;
    let ghost ms = m@;
    if m.len() == 0 {
        proof {
            lemma_no_occurrence_below(b, ms, b.len() as int + 1);
        }
        return 0;
    }
    let mut count: usize = 0;
    let mut start: usize = 0;
    loop
        invariant
            start <= container.len(),
            is_line_start(b, start as int),
            count == occurrences_below(b, ms, start as int),
            count <= start,
            ms.len() > 0,
            b == container@,
            ms == m@,
            ms == marker.spec_bytes(),
        decreases container.len() + 1 - start,
    {
        let found = marker_line(container, m, start);
        let ghost at_start = found is Some;
        assert(is_occurrence(b, ms, start as int) == at_start);
        if found.is_some() {
            count = count + 1;
        }
        assert(count == occurrences_below(b, ms, start + 1));
        let next = next_newline(container, start);
        match next {
            Some(j) => {
                proof {
                    lemma_below_skips(b, ms, start as int + 1, j as int + 1);
                }
                start = j + 1;
            },
            None => {
                proof {
                    lemma_below_skips(b, ms, start as int + 1, b.len() as int + 1);
                }
                return count;
            },
        }
    }
}

/// Offsets strictly inside a line add no occurrence.
proof fn lemma_below_skips(b: Seq<u8>, m: Seq<u8>, from: int, to: int)
    requires
        1 <= from <= to <= b.len() + 1,
        forall|k: int| from - 1 <= k < to - 1 ==> b[k] != 10u8,
    ensures
        occurrences_below(b, m, to) == occurrences_below(b, m, from),
    decreases to - from,
{
    if to > from {
        lemma_below_skips(b, m, from, to - 1);
        assert(!is_line_start(b, to - 1));
    }
}

/// An empty marker occurs nowhere.
proof fn lemma_no_occurrence_below(b: Seq<u8>, m: Seq<u8>, n: int)
    requires
        m.len() == 0,
    ensures
        occurrences_below(b, m, n) == 0,
    decreases n,
{
    if n > 0 {
        lemma_no_occurrence_below(b, m, n - 1);
    }
}

/// The offset of the first `\n` at or after `from`, if any.
fn next_newline(bytes: &[u8], from: usize) -> (found: Option<usize>)
    requires
        from <= bytes.len(),
    ensures
        match found {
            Some(j) => from <= j < bytes.len() && bytes@[j as int] == 10u8 && forall|k: int|
                from <= k < j ==> bytes@[k] != 10u8,
            None => forall|k: int| from <= k < bytes.len() ==> bytes@[k] != 10u8,
        },
{
    let mut j = from;
    while j < bytes.len()
        invariant
            from <= j <= bytes.len(),
            forall|k: int| from <= k < j ==> bytes@[k] != 10u8,
        decreases bytes.len() - j,
    {
        if bytes[j] == 10u8 {
            return Some(j);
        }
        j = j + 1;
    }
    None
}

/// The container with `region` removed: the author's side, byte for byte.
pub fn strip(container: &[u8], region: Option<&Region>) -> (author: Vec<u8>)
    requires
        region matches Some(r) ==> r.extent.start <= r.extent.end <= container@.len(),
    ensures
        match region {
            None => author@ == container@,
            Some(r) => author@ == spec_strip(
                container@,
                r.extent.start as int,
                r.extent.end as int,
            ),
        },
{
    match region {
        None => vstd::slice::slice_to_vec(container),
        Some(region) => {
            let (before, rest) = container.split_at(region.extent.start);
            let (_, after) = rest.split_at(region.extent.end - region.extent.start);
            let mut author = vstd::slice::slice_to_vec(before);
            author.extend_from_slice(after);
            assert(author@ =~= spec_strip(
                container@,
                region.extent.start as int,
                region.extent.end as int,
            ));
            author
        },
    }
}

/// The whole of what a block write puts on disk: `author` — the container
/// with any region of the projection's already stripped out — with the region
/// under `marker` and `placement` put back at the chosen end.
pub fn splice(author: &[u8], marker: &str, placement: Placement, body: &[u8]) -> (spliced: Vec<u8>)
    ensures
        spliced@ == spec_splice(author@, marker.spec_bytes(), placement, body@),
{
    let (before, after): (&[u8], &[u8]) = match placement {
        Placement::Append => (author, body),
        Placement::Prepend => (body, author),
    };
    let mut spliced = vstd::slice::slice_to_vec(before);
    spliced.extend_from_slice(marker.as_bytes());
    spliced.push(10u8);
    spliced.extend_from_slice(after);
    assert(spliced@ =~= spec_splice(author@, marker.spec_bytes(), placement, body@));
    spliced
}

/// Which marker occurrence [`occurrence`] answers with.
#[derive(Debug, Clone, Copy, PartialEq, Eq)]
enum Which {
    First,
    Last,
}

/// The first or last marker occurrence in `bytes`, as the offset the marker
/// starts at and the offset just past its line terminator.
fn occurrence(bytes: &[u8], marker: &[u8], which: Which) -> (found: Option<(usize, usize)>)
    ensures
        found is None <==> !has_occurrence(bytes@, marker@),
        found matches Some((s, e)) ==> line_end_after(bytes@, marker@, s as int) == Some(e as int),
        found matches Some((s, e)) ==> match which {
            Which::First => is_first_occurrence(bytes@, marker@, s as int),
            Which::Last => is_last_occurrence(bytes@, marker@, s as int),
        },
{
    let ghost b = bytes@;
    let ghost m = marker@;
    if marker.len() == 0 {
        return None;
    }
    let first = match which {
        Which::First => true,
        Which::Last => false,
    };
    let mut found: Option<(usize, usize)> = None;
    let mut start: usize = 0;
    loop
        invariant
            start <= bytes.len(),
            is_line_start(b, start as int),
            m.len() > 0,
            b == bytes@,
            m == marker@,
            first ==> found is None,
            first == (which == Which::First),
            found is None ==> forall|t: int| t < start ==> !is_occurrence(b, m, t),
            found matches Some((s, e)) ==> {
                &&& s < start
                &&& is_occurrence(b, m, s as int)
                &&& line_end_after(b, m, s as int) == Some(e as int)
                &&& forall|t: int| s < t < start ==> !is_occurrence(b, m, t)
            },
        decreases bytes.len() + 1 - start,
    {
        if let Some(line_end) = marker_line(bytes, marker, start) {
            assert(is_occurrence(b, m, start as int));
            found = Some((start, line_end));
            if first {
                return found;
            }
        }
        match next_newline(bytes, start) {
            Some(j) => {
                assert forall|t: int| start < t < j + 1 implies !is_occurrence(b, m, t) by {
                    assert(!is_line_start(b, t));
                }
                start = j + 1;
            },
            None => {
                assert forall|t: int| start < t implies !is_occurrence(b, m, t) by {
                    if t <= b.len() {
                        assert(!is_line_start(b, t));
                    }
                }
                return found;
            },
        }
    }
}

/// The offset just past the line terminator when `start` — known to be a line
/// start — begins a marker occurrence; `None` when it does not.
fn marker_line(bytes: &[u8], marker: &[u8], start: usize) -> (end: Option<usize>)
    requires
        start <= bytes.len(),
    ensures
        match end {
            Some(e) => line_end_after(bytes@, marker@, start as int) == Some(e as int),
            None => line_end_after(bytes@, marker@, start as int) is None,
        },
{
    if marker.len() > bytes.len() - start {
        return None;
    }
    let mut i: usize = 0;
    while i < marker.len()
        invariant
            i <= marker.len(),
            start + marker.len() <= bytes.len(),
            bytes@.subrange(start as int, start + i) =~= marker@.subrange(0, i as int),
        decreases marker.len() - i,
    {
        if bytes[start + i] != marker[i] {
            assert(bytes@.subrange(start as int, start + marker.len())[i as int] != marker@[i as int]);
            return None;
        }
        i = i + 1;
        assert(bytes@.subrange(start as int, start + i) =~= marker@.subrange(0, i as int));
    }
    assert(bytes@.subrange(start as int, start + marker.len()) =~= marker@);
    let after = start + marker.len();
    if after == bytes.len() {
        Some(after)
    } else if bytes[after] == 10u8 {
        Some(after + 1)
    } else if bytes[after] == 13u8 && after + 1 < bytes.len() && bytes[after + 1] == 10u8 {
        Some(after + 2)
    } else {
        None
    }
}


/// Offsets at or past a line start `pre` of `c` see exactly what the bytes
/// from `pre` on see: whether an occurrence starts there, and where its line
/// ends.
proof fn lemma_occurrence_in_suffix(c: Seq<u8>, pre: int, m: Seq<u8>, t: int)
    requires
        0 <= pre <= c.len(),
        is_line_start(c, pre),
        pre <= t,
    ensures
        is_occurrence(c, m, t) == is_occurrence(c.subrange(pre, c.len() as int), m, t - pre),
        line_end_after(c, m, t) matches Some(e) ==> line_end_after(
            c.subrange(pre, c.len() as int),
            m,
            t - pre,
        ) == Some(e - pre),
{
    let suffix = c.subrange(pre, c.len() as int);
    let u = t - pre;
    let after = t + m.len();
    if after <= c.len() {
        assert(c.subrange(t, after) =~= suffix.subrange(u, u + m.len()));
    }
    if pre < t <= c.len() {
        assert(c[t - 1] == suffix[u - 1]);
    }
}

/// Offsets inside a prefix `p` of `c` that ends with `\n` see exactly what
/// `p` alone sees, for a marker that holds no `\n`.
proof fn lemma_occurrence_in_prefix(c: Seq<u8>, p: Seq<u8>, m: Seq<u8>, t: int)
    requires
        p.len() <= c.len(),
        c.subrange(0, p.len() as int) == p,
        spec_newline_terminated(p),
        !m.contains(10u8),
        t < p.len(),
    ensures
        is_occurrence(c, m, t) == is_occurrence(p, m, t),
{
    if m.len() > 0 && 0 <= t {
        let after = t + m.len();
        assert(c[p.len() - 1] == 10u8);
        if after <= p.len() {
            assert(c.subrange(t, after) =~= p.subrange(t, after));
            if after < p.len() {
                assert(c[after] == p[after]);
                if after + 1 < p.len() {
                    assert(c[after + 1] == p[after + 1]);
                }
            } else {
                assert(c.subrange(t, after)[p.len() - 1 - t] == 10u8);
                assert(m[p.len() - 1 - t] != 10u8);
            }
        } else if after <= c.len() {
            assert(c.subrange(t, after)[p.len() - 1 - t] == 10u8);
            assert(m[p.len() - 1 - t] != 10u8);
        }
        if t > 0 {
            assert(c[t - 1] == p[t - 1]);
        }
    }
}

/// A block region spliced into an author's side reads back: the spliced
/// container holds the marker, every region [`locate`] can answer with under
/// the same marker and placement carries exactly the body, and stripping that
/// region leaves exactly the author's side. This holds for every marker and
/// body [`entry_fault`] passes, given an author's side an appended region can
/// follow (empty or ending with `\n`).
pub proof fn lemma_spliced_region_reads_back(
    author: Seq<u8>,
    m: Seq<u8>,
    placement: Placement,
    body: Seq<u8>,
)
    requires
        spec_entry_fault(m, placement, body) is None,
        placement == Placement::Append ==> spec_newline_terminated(author),
    ensures
        has_occurrence(spec_splice(author, m, placement, body), m),
        forall|r: Region| #[trigger]
            is_region(spec_splice(author, m, placement, body), m, placement, r) ==> {
                &&& spec_splice(author, m, placement, body).subrange(
                    r.body.start as int,
                    r.body.end as int,
                ) == body
                &&& spec_strip(
                    spec_splice(author, m, placement, body),
                    r.extent.start as int,
                    r.extent.end as int,
                ) == author
            },
{
    let c = spec_splice(author, m, placement, body);
    assert(forall|i: int| 0 <= i < m.len() ==> m[i] != 10u8);
    match placement {
        Placement::Append => {
            let s = author.len() as int;
            let e = s + m.len() + 1;
            assert(c.subrange(s, s + m.len()) =~= m);
            assert(c[s + m.len()] == 10u8);
            assert(is_occurrence(c, m, s));
            assert(c.subrange(e, c.len() as int) =~= body);
            assert(c.subrange(0, s) =~= author);
            assert forall|t: int| s < t implies !is_occurrence(c, m, t) by {
                if t < e {
                    assert(c[t - 1] == m[t - 1 - s]);
                } else {
                    assert(is_line_start(c, e));
                    lemma_occurrence_in_suffix(c, e, m, t);
                }
            }
            assert forall|r: Region| #[trigger]
                is_region(c, m, placement, r) implies {
                    &&& c.subrange(r.body.start as int, r.body.end as int) == body
                    &&& spec_strip(c, r.extent.start as int, r.extent.end as int) == author
                } by {
                if r.extent.start < s {
                    assert(!is_occurrence(c, m, r.extent.start as int));
                }
                assert(r.extent.start == s);
                assert(spec_strip(c, s, c.len() as int) =~= author);
            }
        },
        Placement::Prepend => {
            let s = body.len() as int;
            let e = s + m.len() + 1;
            assert(c.subrange(s, s + m.len()) =~= m);
            assert(c[s + m.len()] == 10u8);
            assert(c.subrange(0, s) =~= body);
            assert(is_occurrence(c, m, s));
            assert forall|t: int| t < s implies !is_occurrence(c, m, t) by {
                lemma_occurrence_in_prefix(c, body, m, t);
            }
            assert forall|r: Region| #[trigger]
                is_region(c, m, placement, r) implies {
                    &&& c.subrange(r.body.start as int, r.body.end as int) == body
                    &&& spec_strip(c, r.extent.start as int, r.extent.end as int) == author
                } by {
                if r.body.end > s {
                    assert(!is_occurrence(c, m, r.body.end as int));
                }
                assert(r.body.end == s);
                assert(spec_strip(c, 0, e) =~= author);
            }
        },
    }
}


/// Exactly one occurrence below `n` counts as one.
proof fn lemma_one_occurrence_below(b: Seq<u8>, m: Seq<u8>, s: int, n: int)
    requires
        0 <= s,
        is_occurrence(b, m, s),
        forall|t: int| t != s ==> !is_occurrence(b, m, t),
    ensures
        occurrences_below(b, m, n) == if n > s {
            1nat
        } else {
            0nat
        },
    decreases n,
{
    if n > 0 {
        lemma_one_occurrence_below(b, m, s, n - 1);
    }
}

/// A region spliced into an author's side free of the marker leaves the
/// container holding the marker on exactly one line — so the region it wrote
/// is the one the container identifies on the next read.
pub proof fn lemma_spliced_container_holds_one_marker_line(
    author: Seq<u8>,
    m: Seq<u8>,
    placement: Placement,
    body: Seq<u8>,
)
    requires
        spec_entry_fault(m, placement, body) is None,
        !has_occurrence(author, m),
        placement == Placement::Append ==> spec_newline_terminated(author),
    ensures
        occurrence_total(spec_splice(author, m, placement, body), m) == 1,
{
    let c = spec_splice(author, m, placement, body);
    assert(forall|i: int| 0 <= i < m.len() ==> m[i] != 10u8);
    match placement {
        Placement::Append => {
            let s = author.len() as int;
            let e = s + m.len() + 1;
            assert(c.subrange(s, s + m.len()) =~= m);
            assert(c[s + m.len()] == 10u8);
            assert(c.subrange(0, s) =~= author);
            assert(c.subrange(e, c.len() as int) =~= body);
            assert(is_occurrence(c, m, s));
            assert forall|t: int| t != s implies !is_occurrence(c, m, t) by {
                if t < s {
                    lemma_occurrence_in_prefix(c, author, m, t);
                } else if t < e {
                    assert(c[t - 1] == m[t - 1 - s]);
                } else {
                    assert(is_line_start(c, e));
                    lemma_occurrence_in_suffix(c, e, m, t);
                }
            }
            lemma_one_occurrence_below(c, m, s, c.len() as int + 1);
        },
        Placement::Prepend => {
            let s = body.len() as int;
            let e = s + m.len() + 1;
            assert(c.subrange(s, s + m.len()) =~= m);
            assert(c[s + m.len()] == 10u8);
            assert(c.subrange(0, s) =~= body);
            assert(c.subrange(e, c.len() as int) =~= author);
            assert(is_occurrence(c, m, s));
            assert forall|t: int| t != s implies !is_occurrence(c, m, t) by {
                if t < s {
                    lemma_occurrence_in_prefix(c, body, m, t);
                } else if t < e {
                    assert(c[t - 1] == m[t - 1 - s]);
                } else {
                    assert(is_line_start(c, e));
                    lemma_occurrence_in_suffix(c, e, m, t);
                }
            }
            lemma_one_occurrence_below(c, m, s, c.len() as int + 1);
        },
    }
}

} // verus!
