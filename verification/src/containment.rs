//! The lexical containment gateway: which relative paths the projection may
//! act at, spelled how, and where a symlink target lands when read from a
//! directory of the destination.

use vstd::prelude::*;
use vstd::string::{StrSliceExecFns, StringExecFns};

use crate::error::Error;
use crate::refusal::{Origin, OriginView, Refused};
use crate::text::text_eq;

verus! {

/// `s` split at every `/`: one more piece than it holds slashes.
pub open spec fn split_slash(s: Seq<char>) -> Seq<Seq<char>>
    decreases s.len(),
{
    if s.len() == 0 {
        seq![Seq::empty()]
    } else {
        let pieces = split_slash(s.drop_last());
        if s.last() == '/' {
            pieces.push(Seq::empty())
        } else {
            pieces.update(pieces.len() - 1, pieces.last().push(s.last()))
        }
    }
}

/// `pieces` joined with `/` between each two.
pub open spec fn join_slash(pieces: Seq<Seq<char>>) -> Seq<char>
    decreases pieces.len(),
{
    if pieces.len() == 0 {
        Seq::empty()
    } else if pieces.len() == 1 {
        pieces[0]
    } else {
        join_slash(pieces.drop_last()) + seq!['/'] + pieces.last()
    }
}

/// A character's ASCII lowercase; every other character is itself.
pub open spec fn ascii_lower(c: char) -> char {
    if 'A' <= c <= 'Z' {
        ((c as u32) + 32) as char
    } else {
        c
    }
}

/// `a` and `b` are the same text once ASCII letters are folded to lowercase.
pub open spec fn eq_ignore_ascii_case(a: Seq<char>, b: Seq<char>) -> bool {
    a.len() == b.len() && forall|i: int| 0 <= i < a.len() ==> ascii_lower(a[i]) == ascii_lower(b[i])
}

/// The text before the first `.`, or all of it.
pub open spec fn before_first_dot(s: Seq<char>) -> Seq<char>
    decreases s.len(),
{
    if s.len() == 0 {
        s
    } else if s[0] == '.' {
        Seq::empty()
    } else {
        seq![s[0]] + before_first_dot(s.drop_first())
    }
}

/// Microsoft's documented reserved device names, case-insensitive and judged
/// on the portion before the first dot: they win even with an extension
/// attached (`NUL.txt`).
pub open spec fn spec_is_windows_reserved_device(component: Seq<char>) -> bool {
    let base = before_first_dot(component);
    ||| eq_ignore_ascii_case(base, seq!['c', 'o', 'n'])
    ||| eq_ignore_ascii_case(base, seq!['p', 'r', 'n'])
    ||| eq_ignore_ascii_case(base, seq!['a', 'u', 'x'])
    ||| eq_ignore_ascii_case(base, seq!['n', 'u', 'l'])
    ||| eq_ignore_ascii_case(base, seq!['c', 'o', 'n', 'i', 'n', '$'])
    ||| eq_ignore_ascii_case(base, seq!['c', 'o', 'n', 'o', 'u', 't', '$'])
    ||| {
        &&& base.len() == 4
        &&& (eq_ignore_ascii_case(base.take(3), seq!['c', 'o', 'm']) || eq_ignore_ascii_case(
            base.take(3),
            seq!['l', 'p', 't'],
        ))
        &&& ('1' <= base[3] <= '9' || base[3] == '\u{b9}' || base[3] == '\u{b2}' || base[3]
            == '\u{b3}')
    }
}

/// Whether Windows resolves a component of this shape — a colon, a trailing
/// dot or space, or a reserved device name — somewhere other than an ordinary
/// file of that name. Checked on every host.
pub open spec fn spec_windows_resolves_specially(component: Seq<char>) -> bool {
    ||| component.contains(':')
    ||| (component.len() > 0 && (component.last() == '.' || component.last() == ' '))
    ||| spec_is_windows_reserved_device(component)
}

/// The components a relative path keeps once `..` pops what it follows; `None`
/// where a component is empty or `.`, a `..` climbs above the start, or a
/// component is one Windows resolves specially.
pub open spec fn kept_components(pieces: Seq<Seq<char>>) -> Option<Seq<Seq<char>>>
    decreases pieces.len(),
{
    if pieces.len() == 0 {
        Some(Seq::empty())
    } else {
        match kept_components(pieces.drop_last()) {
            None => None,
            Some(kept) => {
                let c = pieces.last();
                if c.len() == 0 || c == seq!['.'] {
                    None
                } else if c == seq!['.', '.'] {
                    if kept.len() == 0 {
                        None
                    } else {
                        Some(kept.drop_last())
                    }
                } else if spec_windows_resolves_specially(c) {
                    None
                } else {
                    Some(kept.push(c))
                }
            },
        }
    }
}

/// `rel` normalized lexically under the containment contract, or `None` where
/// it is refused: a backslash, a NUL, a leading `/`, an empty or `.`
/// component, a `..` above the start, a component Windows resolves specially,
/// or nothing left at all.
pub open spec fn spec_contained_normalize(rel: Seq<char>) -> Option<Seq<char>> {
    if rel.contains('\\') || rel.contains('\0') || (rel.len() > 0 && rel[0] == '/') {
        None
    } else {
        match kept_components(split_slash(rel)) {
            None => None,
            Some(kept) => if kept.len() == 0 {
                None
            } else {
                Some(join_slash(kept))
            },
        }
    }
}

/// The final component of a path, where it is a name: `None` for a path
/// with no components, one ending in `..`, or a root or a `.` alone.
pub open spec fn path_file_name(path: Seq<char>) -> Option<Seq<char>> {
    let cs = path_components(path);
    if cs.len() == 0 {
        None
    } else {
        let last = cs.last();
        if last == seq!['/'] || last == seq!['.'] || last == seq!['.', '.'] {
            None
        } else {
            Some(last)
        }
    }
}

/// camino's `Utf8Path::file_name` on `path`, owned: the path's last
/// component where that is a normal one, as its documentation states (`None`
/// where the path ends in `..`, is empty, or is a root alone).
#[verifier::external_body]
pub(crate) fn file_name(path: &str) -> (name: Option<String>)
    ensures
        match name {
            Some(n) => path_file_name(path@) == Some(n@),
            None => path_file_name(path@) is None,
        },
{
    camino::Utf8Path::new(path).file_name().map(str::to_owned)
}

/// The characters of `s`, in order.
pub fn chars_of(s: &str) -> (chars: Vec<char>)
    ensures
        chars@ == s@,
{
    let mut chars: Vec<char> = Vec::new();
    for c in it: s.chars()
        invariant
            it.seq() == s@,
            chars@ == it.seq().take(it.index() as int),
    {
        chars.push(c);
        assert(chars@ =~= it.seq().take(it.index() as int + 1));
    }
    assert(chars@ =~= s@);
    chars
}

/// Whether `chars[from..to]` holds `c`.
fn holds_char(chars: &Vec<char>, from: usize, to: usize, c: char) -> (held: bool)
    requires
        from <= to <= chars@.len(),
    ensures
        held == chars@.subrange(from as int, to as int).contains(c),
{
    let mut i = from;
    while i < to
        invariant
            from <= i <= to,
            to <= chars@.len(),
            forall|k: int| from <= k < i ==> chars@[k] != c,
        decreases to - i,
    {
        if chars[i] == c {
            assert(chars@.subrange(from as int, to as int)[i - from] == c);
            return true;
        }
        i = i + 1;
    }
    false
}

/// A character's ASCII lowercase.
pub fn to_ascii_lower(c: char) -> (lower: char)
    ensures
        lower == ascii_lower(c),
{
    if 'A' <= c && c <= 'Z' {
        let code = (c as u8) + 32;
        code as char
    } else {
        c
    }
}

/// Whether `chars[from..to]` equals `word` once ASCII letters fold.
fn piece_eq_ignore_case(chars: &Vec<char>, from: usize, to: usize, word: &Vec<char>) -> (same: bool)
    requires
        from <= to <= chars@.len(),
    ensures
        same == eq_ignore_ascii_case(chars@.subrange(from as int, to as int), word@),
{
    if to - from != word.len() {
        return false;
    }
    let mut i: usize = 0;
    while i < word.len()
        invariant
            i <= word@.len(),
            to - from == word@.len(),
            from <= to <= chars@.len(),
            forall|k: int|
                0 <= k < i ==> ascii_lower(chars@[from + k]) == ascii_lower(#[trigger] word@[k]),
        decreases word.len() - i,
    {
        if to_ascii_lower(chars[from + i]) != to_ascii_lower(word[i]) {
            return false;
        }
        i = i + 1;
    }
    true
}

/// The reserved device names, as characters.
fn device_names() -> (names: Vec<Vec<char>>)
    ensures
        names@.len() == 6,
        names@[0]@ == seq!['c', 'o', 'n'],
        names@[1]@ == seq!['p', 'r', 'n'],
        names@[2]@ == seq!['a', 'u', 'x'],
        names@[3]@ == seq!['n', 'u', 'l'],
        names@[4]@ == seq!['c', 'o', 'n', 'i', 'n', '$'],
        names@[5]@ == seq!['c', 'o', 'n', 'o', 'u', 't', '$'],
{
    let names = vec![
        vec!['c', 'o', 'n'],
        vec!['p', 'r', 'n'],
        vec!['a', 'u', 'x'],
        vec!['n', 'u', 'l'],
        vec!['c', 'o', 'n', 'i', 'n', '$'],
        vec!['c', 'o', 'n', 'o', 'u', 't', '$'],
    ];
    names
}

/// Whether `chars[from..to]` is a reserved Windows device name.
fn is_windows_reserved_device(chars: &Vec<char>, from: usize, to: usize) -> (reserved: bool)
    requires
        from <= to <= chars@.len(),
    ensures
        reserved == spec_is_windows_reserved_device(chars@.subrange(from as int, to as int)),
{
    let ghost component = chars@.subrange(from as int, to as int);
    // The base ends at the first dot.
    let mut end = from;
    while end < to && chars[end] != '.'
        invariant
            from <= end <= to,
            to <= chars@.len(),
            forall|k: int| from <= k < end ==> chars@[k] != '.',
        decreases to - end,
    {
        end = end + 1;
    }
    proof {
        lemma_before_first_dot(chars@, from as int, end as int, to as int);
    }
    let ghost base = chars@.subrange(from as int, end as int);
    let names = device_names();
    let mut i: usize = 0;
    while i < names.len()
        invariant
            i <= names@.len(),
            names@.len() == 6,
            names@[0]@ == seq!['c', 'o', 'n'],
            names@[1]@ == seq!['p', 'r', 'n'],
            names@[2]@ == seq!['a', 'u', 'x'],
            names@[3]@ == seq!['n', 'u', 'l'],
            names@[4]@ == seq!['c', 'o', 'n', 'i', 'n', '$'],
            names@[5]@ == seq!['c', 'o', 'n', 'o', 'u', 't', '$'],
            before_first_dot(chars@.subrange(from as int, to as int)) == base,
            from <= end <= to <= chars@.len(),
            base == chars@.subrange(from as int, end as int),
            forall|k: int| 0 <= k < i ==> !eq_ignore_ascii_case(base, #[trigger] names@[k]@),
        decreases names.len() - i,
    {
        if piece_eq_ignore_case(chars, from, end, &names[i]) {
            return true;
        }
        i = i + 1;
    }
    if end - from != 4 {
        return false;
    }
    let com = vec!['c', 'o', 'm'];
    let lpt = vec!['l', 'p', 't'];
    assert(base.take(3) == chars@.subrange(from as int, from + 3));
    let prefixed = piece_eq_ignore_case(chars, from, from + 3, &com) || piece_eq_ignore_case(
        chars,
        from,
        from + 3,
        &lpt,
    );
    let digit = chars[from + 3];
    prefixed && (('1' <= digit && digit <= '9') || digit == '\u{b9}' || digit == '\u{b2}' || digit
        == '\u{b3}')
}

/// The base of `chars[from..to]` ends at `end`, its first dot.
proof fn lemma_before_first_dot(chars: Seq<char>, from: int, end: int, to: int)
    requires
        0 <= from <= end <= to <= chars.len(),
        forall|k: int| from <= k < end ==> chars[k] != '.',
        end < to ==> chars[end] == '.',
    ensures
        before_first_dot(chars.subrange(from, to)) == chars.subrange(from, end),
    decreases end - from,
{
    let s = chars.subrange(from, to);
    if from == end {
        if s.len() > 0 {
            assert(s[0] == '.');
        }
        assert(chars.subrange(from, end) =~= Seq::<char>::empty());
    } else {
        lemma_before_first_dot(chars, from + 1, end, to);
        assert(s.drop_first() =~= chars.subrange(from + 1, to));
        assert(chars.subrange(from, end) =~= seq![s[0]] + chars.subrange(from + 1, end));
    }
}

/// Whether Windows resolves `chars[from..to]` specially.
fn windows_resolves_specially(chars: &Vec<char>, from: usize, to: usize) -> (special: bool)
    requires
        from <= to <= chars@.len(),
    ensures
        special == spec_windows_resolves_specially(chars@.subrange(from as int, to as int)),
{
    if holds_char(chars, from, to, ':') {
        return true;
    }
    if to > from && (chars[to - 1] == '.' || chars[to - 1] == ' ') {
        return true;
    }
    is_windows_reserved_device(chars, from, to)
}

/// The pieces of `s` between its slashes, as character ranges of `s`.
pub fn slash_pieces(chars: &Vec<char>) -> (pieces: Vec<(usize, usize)>)
    ensures
        pieces@.len() == split_slash(chars@).len(),
        forall|i: int|
            0 <= i < pieces@.len() ==> {
                &&& (#[trigger] pieces@[i]).0 <= pieces@[i].1 <= chars@.len()
                &&& chars@.subrange(pieces@[i].0 as int, pieces@[i].1 as int) == split_slash(
                    chars@,
                )[i]
            },
{
    let mut pieces: Vec<(usize, usize)> = Vec::new();
    let mut start: usize = 0;
    let mut i: usize = 0;
    while i < chars.len()
        invariant
            start <= i <= chars@.len(),
            pieces@.len() + 1 == split_slash(chars@.take(i as int)).len(),
            forall|k: int|
                0 <= k < pieces@.len() ==> {
                    &&& (#[trigger] pieces@[k]).0 <= pieces@[k].1 <= chars@.len()
                    &&& chars@.subrange(pieces@[k].0 as int, pieces@[k].1 as int) == split_slash(
                        chars@.take(i as int),
                    )[k]
                },
            chars@.subrange(start as int, i as int) == split_slash(chars@.take(i as int)).last(),
        decreases chars.len() - i,
    {
        let ghost before = split_slash(chars@.take(i as int));
        assert(chars@.take(i + 1).drop_last() =~= chars@.take(i as int));
        if chars[i] == '/' {
            pieces.push((start, i));
            start = i + 1;
            assert(chars@.subrange(start as int, i + 1) =~= Seq::<char>::empty());
        } else {
            assert(chars@.subrange(start as int, i + 1) =~= chars@.subrange(start as int, i as int).push(
                chars@[i as int],
            ));
        }
        i = i + 1;
    }
    pieces.push((start, chars.len()));
    assert(chars@.take(chars@.len() as int) =~= chars@);
    pieces
}

/// `pieces` as text, `/`-joined.
pub fn join_pieces(chars: &Vec<char>, raw: &str, kept: &Vec<(usize, usize)>) -> (joined: String)
    requires
        chars@ == raw@,
        forall|k: int| 0 <= k < kept@.len() ==> (#[trigger] kept@[k]).0 <= kept@[k].1 <= chars@.len(),
    ensures
        joined@ == join_slash(
            Seq::new(kept@.len(), |k: int| chars@.subrange(kept@[k].0 as int, kept@[k].1 as int)),
        ),
{
    let slash = "/";
    proof {
        reveal_strlit("/");
    }
    let ghost texts = Seq::new(
        kept@.len(),
        |k: int| chars@.subrange(kept@[k].0 as int, kept@[k].1 as int),
    );
    let mut joined = String::new();
    let mut i: usize = 0;
    while i < kept.len()
        invariant
            i <= kept@.len(),
            chars@ == raw@,
            slash@ == seq!['/'],
            texts == Seq::new(
                kept@.len(),
                |k: int| chars@.subrange(kept@[k].0 as int, kept@[k].1 as int),
            ),
            forall|k: int| 0 <= k < kept@.len() ==> (#[trigger] kept@[k]).0 <= kept@[k].1 <= chars@.len(),
            joined@ == join_slash(texts.take(i as int)),
        decreases kept.len() - i,
    {
        let (from, to) = kept[i];
        if i > 0 {
            joined.append(slash);
        }
        joined.append(raw.substring_char(from, to));
        proof {
            assert(texts.take(i + 1).drop_last() =~= texts.take(i as int));
            if i == 0 {
                assert(joined@ =~= texts.take(1)[0]);
            }
        }
        i = i + 1;
    }
    assert(texts.take(kept@.len() as int) =~= texts);
    joined
}

/// Once a prefix of the pieces is refused, every longer run of them is.
proof fn lemma_kept_none_extends(pieces: Seq<Seq<char>>, j: int)
    requires
        0 <= j <= pieces.len(),
        kept_components(pieces.take(j)) is None,
    ensures
        kept_components(pieces) is None,
    decreases pieces.len() - j,
{
    if j < pieces.len() {
        assert(pieces.take(j + 1).drop_last() =~= pieces.take(j));
        lemma_kept_none_extends(pieces, j + 1);
    } else {
        assert(pieces.take(j) =~= pieces);
    }
}

/// `rel` normalized lexically under the containment contract, or `None`
/// where it is refused.
pub fn contained_normalize(rel: &str) -> (normalized: Option<String>)
    ensures
        match normalized {
            Some(n) => spec_contained_normalize(rel@) == Some(n@),
            None => spec_contained_normalize(rel@) is None,
        },
{
    let chars = chars_of(rel);
    let n = chars.len();
    if holds_char(&chars, 0, n, '\\') || holds_char(&chars, 0, n, '\0') || (n > 0 && chars[0]
        == '/') {
        assert(chars@.subrange(0, n as int) =~= chars@);
        return None;
    }
    assert(chars@.subrange(0, n as int) =~= chars@);
    let pieces = slash_pieces(&chars);
    let ghost split = split_slash(chars@);
    let mut kept: Vec<(usize, usize)> = Vec::new();
    let mut i: usize = 0;
    while i < pieces.len()
        invariant
            i <= pieces@.len(),
            pieces@.len() == split.len(),
            split == split_slash(chars@),
            chars@ == rel@,
            !(rel@.contains('\\') || rel@.contains('\0') || (rel@.len() > 0 && rel@[0] == '/')),
            forall|k: int|
                0 <= k < pieces@.len() ==> {
                    &&& (#[trigger] pieces@[k]).0 <= pieces@[k].1 <= chars@.len()
                    &&& chars@.subrange(pieces@[k].0 as int, pieces@[k].1 as int) == split[k]
                },
            forall|k: int| 0 <= k < kept@.len() ==> (#[trigger] kept@[k]).0 <= kept@[k].1 <= chars@.len(),
            kept_components(split.take(i as int)) == Some(
                Seq::new(
                    kept@.len(),
                    |k: int| chars@.subrange(kept@[k].0 as int, kept@[k].1 as int),
                ),
            ),
        decreases pieces.len() - i,
    {
        let (from, to) = pieces[i];
        let ghost piece = chars@.subrange(from as int, to as int);
        let ghost before = Seq::new(
            kept@.len(),
            |k: int| chars@.subrange(kept@[k].0 as int, kept@[k].1 as int),
        );
        assert(split.take(i + 1).drop_last() =~= split.take(i as int));
        assert(split.take(i + 1).last() == piece);
        let len = to - from;
        if len == 0 || (len == 1 && chars[from] == '.') {
            proof {
                if len == 1 {
                    assert(piece =~= seq!['.']);
                }
                assert(kept_components(split.take(i + 1)) is None);
                lemma_kept_none_extends(split, i + 1);
            }
            return None;
        }
        if len == 2 && chars[from] == '.' && chars[from + 1] == '.' {
            assert(piece =~= seq!['.', '.']);
            if kept.len() == 0 {
                proof {
                    assert(kept_components(split.take(i + 1)) is None);
                    lemma_kept_none_extends(split, i + 1);
                }
                return None;
            }
            kept.pop();
            assert(Seq::new(
                kept@.len(),
                |k: int| chars@.subrange(kept@[k].0 as int, kept@[k].1 as int),
            ) =~= before.drop_last());
        } else {
            proof {
                if len == 1 {
                    assert(piece != seq!['.']) by {
                        assert(piece[0] == chars@[from as int]);
                    }
                }
                if len == 2 {
                    assert(piece != seq!['.', '.']) by {
                        assert(piece[0] == chars@[from as int]);
                        assert(piece[1] == chars@[from + 1]);
                    }
                }
            }
            if windows_resolves_specially(&chars, from, to) {
                proof {
                    assert(kept_components(split.take(i + 1)) is None);
                    lemma_kept_none_extends(split, i + 1);
                }
                return None;
            }
            kept.push((from, to));
            assert(Seq::new(
                kept@.len(),
                |k: int| chars@.subrange(kept@[k].0 as int, kept@[k].1 as int),
            ) =~= before.push(piece));
        }
        i = i + 1;
    }
    assert(split.take(pieces@.len() as int) =~= split);
    if kept.len() == 0 {
        return None;
    }
    Some(join_pieces(&chars, rel, &kept))
}

/// Whether `target` is a pathname at all: not empty, and free of NUL.
pub fn is_pathname(target: &str) -> (pathname: bool)
    ensures
        pathname == (target@.len() > 0 && !target@.contains('\0')),
{
    let chars = chars_of(target);
    let n = chars.len();
    let nul = holds_char(&chars, 0, n, '\0');
    assert(chars@.subrange(0, n as int) =~= chars@);
    n > 0 && !nul
}

/// Whether `target` opens with a Windows drive designator: an ASCII letter
/// followed by a colon.
pub open spec fn spec_starts_with_drive(target: Seq<char>) -> bool {
    target.len() >= 2 && ('a' <= ascii_lower(target[0]) <= 'z') && target[1] == ':'
}

/// Whether `target` opens with a Windows drive designator.
pub fn starts_with_drive(target: &str) -> (drive: bool)
    ensures
        drive == spec_starts_with_drive(target@),
{
    let chars = chars_of(target);
    if chars.len() < 2 {
        return false;
    }
    let letter = to_ascii_lower(chars[0]);
    'a' <= letter && letter <= 'z' && chars[1] == ':'
}


// ---- joining onto the destination ----

/// `rel` joined onto `dest` the way a Unix path buffer pushes a component: an
/// absolute `rel` replaces `dest`; otherwise a `/` goes between unless `dest`
/// is empty or already ends in one.
pub open spec fn path_join(dest: Seq<char>, rel: Seq<char>) -> Seq<char> {
    if rel.len() > 0 && rel[0] == '/' {
        rel
    } else if dest.len() == 0 || dest.last() == '/' {
        dest + rel
    } else {
        dest + seq!['/'] + rel
    }
}

/// `rel` joined onto `dest`.
pub fn join_path(dest: &str, rel: &str) -> (joined: String)
    ensures
        joined@ == path_join(dest@, rel@),
{
    let d = chars_of(dest);
    let r = chars_of(rel);
    if r.len() > 0 && r[0] == '/' {
        return String::from_str(rel);
    }
    let mut joined = String::from_str(dest);
    if !(d.len() == 0 || d[d.len() - 1] == '/') {
        joined.append("/");
        proof {
            reveal_strlit("/");
        }
    }
    joined.append(rel);
    joined
}

/// Normalizes `rel` lexically and joins it onto `dest`, refusing any path
/// that would land outside the destination.
pub fn contained_join(dest: &str, rel: &str) -> (joined: Result<String, Error>)
    ensures
        match spec_contained_normalize(rel@) {
            Some(n) => joined matches Ok(j) && j@ == path_join(dest@, n),
            None => joined matches Err(Error::Refused(Refused::Containment { paths, origin, .. }))
                && paths.deep_view() == seq![rel@] && origin@ == OriginView::Caller,
        },
{
    match contained_normalize(rel) {
        Some(normalized) => Ok(join_path(dest, normalized.as_str())),
        None => {
            let mut paths: Vec<String> = Vec::new();
            paths.push(String::from_str(rel));
            assert(paths.deep_view() =~= seq![rel@]);
            Err(Error::Refused(Refused::Containment { paths, below: Vec::new(), origin: Origin::Caller }))
        },
    }
}

// ---- where a symlink target lands ----

/// Whether a target string cannot be resolved from inside the destination at
/// all: an absolute target, a leading Windows drive designator, or a
/// backslash anywhere.
pub open spec fn spec_target_unresolvable(target: Seq<char>) -> bool {
    target.contains('\\') || (target.len() > 0 && target[0] == '/') || spec_starts_with_drive(target)
}

/// The components of `s` that are not empty.
pub open spec fn nonempty_components(pieces: Seq<Seq<char>>) -> Seq<Seq<char>>
    decreases pieces.len(),
{
    if pieces.len() == 0 {
        pieces
    } else {
        let kept = nonempty_components(pieces.drop_last());
        if pieces.last().len() > 0 {
            kept.push(pieces.last())
        } else {
            kept
        }
    }
}

/// Walks `comps` lexically from the components `walked`: an empty component
/// and `.` stay put, `..` pops (and leaves the destination with nothing to
/// pop), a name descends.
pub open spec fn walk_lexical(walked: Seq<Seq<char>>, comps: Seq<Seq<char>>) -> Option<Seq<Seq<char>>>
    decreases comps.len(),
{
    if comps.len() == 0 {
        Some(walked)
    } else {
        let c = comps[0];
        let rest = comps.drop_first();
        if c.len() == 0 || c == seq!['.'] {
            walk_lexical(walked, rest)
        } else if c == seq!['.', '.'] {
            if walked.len() == 0 {
                None
            } else {
                walk_lexical(walked.drop_last(), rest)
            }
        } else {
            walk_lexical(walked.push(c), rest)
        }
    }
}

/// Where the symlink target `target`, written in directory `parent`, lands
/// relative to the destination when read without following any link: `None`
/// where it lands outside.
pub open spec fn spec_contained_target(parent: Seq<char>, target: Seq<char>) -> Option<Seq<char>> {
    if spec_target_unresolvable(target) {
        None
    } else {
        match walk_lexical(nonempty_components(split_slash(parent)), split_slash(target)) {
            Some(walked) => Some(join_slash(walked)),
            None => None,
        }
    }
}

/// The pieces of `raw` as texts.
pub(crate) fn piece_texts(chars: &Vec<char>, raw: &str, pieces: &Vec<(usize, usize)>) -> (texts: Vec<String>)
    requires
        chars@ == raw@,
        forall|k: int| 0 <= k < pieces@.len() ==> (#[trigger] pieces@[k]).0 <= pieces@[k].1 <= chars@.len(),
    ensures
        texts.deep_view() == Seq::new(
            pieces@.len(),
            |k: int| chars@.subrange(pieces@[k].0 as int, pieces@[k].1 as int),
        ),
{
    let mut texts: Vec<String> = Vec::new();
    let mut i: usize = 0;
    while i < pieces.len()
        invariant
            i <= pieces@.len(),
            chars@ == raw@,
            forall|k: int| 0 <= k < pieces@.len() ==> (#[trigger] pieces@[k]).0 <= pieces@[k].1 <= chars@.len(),
            texts.deep_view() == Seq::new(
                i as nat,
                |k: int| chars@.subrange(pieces@[k].0 as int, pieces@[k].1 as int),
            ),
        decreases pieces.len() - i,
    {
        let (from, to) = pieces[i];
        let ghost before = texts.deep_view();
        let piece = raw.substring_char(from, to);
        let t = String::from_str(piece);
        assert(t@ == chars@.subrange(from as int, to as int));
        texts.push(t);
        assert(texts.deep_view() =~= before.push(chars@.subrange(from as int, to as int)));
        assert(texts.deep_view() =~= Seq::new(
            (i + 1) as nat,
            |k: int| chars@.subrange(pieces@[k].0 as int, pieces@[k].1 as int),
        ));
        i = i + 1;
    }
    texts
}

/// The components of a target string, or `None` for one that cannot be
/// resolved from inside the destination.
pub fn split_target(target: &str) -> (components: Option<Vec<String>>)
    ensures
        match components {
            None => spec_target_unresolvable(target@),
            Some(v) => !spec_target_unresolvable(target@) && v.deep_view() == split_slash(target@),
        },
{
    let chars = chars_of(target);
    let n = chars.len();
    let backslash = holds_char(&chars, 0, n, '\\');
    assert(chars@.subrange(0, n as int) =~= chars@);
    if backslash || (n > 0 && chars[0] == '/') || starts_with_drive(target) {
        return None;
    }
    let pieces = slash_pieces(&chars);
    let texts = piece_texts(&chars, target, &pieces);
    assert(texts.deep_view() =~= split_slash(target@));
    Some(texts)
}

/// The texts of `texts` joined with `/`.
pub fn join_texts(texts: &Vec<String>) -> (joined: String)
    ensures
        joined@ == join_slash(texts.deep_view()),
{
    let ghost all = texts.deep_view();
    let mut joined = String::new();
    let mut i: usize = 0;
    while i < texts.len()
        invariant
            i <= texts@.len(),
            all == texts.deep_view(),
            joined@ == join_slash(all.take(i as int)),
        decreases texts.len() - i,
    {
        if i > 0 {
            joined.append("/");
            proof {
                reveal_strlit("/");
            }
        }
        joined.append(texts[i].as_str());
        proof {
            assert(all.take(i + 1).drop_last() =~= all.take(i as int));
            if i == 0 {
                assert(joined@ =~= all.take(1)[0]);
            }
        }
        i = i + 1;
    }
    assert(all.take(texts@.len() as int) =~= all);
    joined
}

/// The components of `parent` that are not empty.
pub fn parent_components(parent: &str) -> (components: Vec<String>)
    ensures
        components.deep_view() == nonempty_components(split_slash(parent@)),
{
    let chars = chars_of(parent);
    let pieces = slash_pieces(&chars);
    let texts = piece_texts(&chars, parent, &pieces);
    assert(texts.deep_view() =~= split_slash(parent@));
    let ghost all = texts.deep_view();
    let mut kept: Vec<String> = Vec::new();
    let mut i: usize = 0;
    while i < texts.len()
        invariant
            i <= texts@.len(),
            all == texts.deep_view(),
            kept.deep_view() == nonempty_components(all.take(i as int)),
        decreases texts.len() - i,
    {
        proof {
            assert(all.take(i + 1).drop_last() =~= all.take(i as int));
        }
        if texts[i].as_str().unicode_len() > 0 {
            let ghost before = kept.deep_view();
            kept.push(texts[i].clone());
            assert(kept.deep_view() =~= before.push(all[i as int]));
        }
        i = i + 1;
    }
    assert(all.take(texts@.len() as int) =~= all);
    kept
}

// ---- absolute paths ----

/// The names a path keeps once empty and `.` components are dropped and
/// each `..` takes back the name before it; at the root there is none to
/// take.
pub open spec fn collapsed_names(pieces: Seq<Seq<char>>) -> Seq<Seq<char>>
    decreases pieces.len(),
{
    if pieces.len() == 0 {
        Seq::empty()
    } else {
        let kept = collapsed_names(pieces.drop_last());
        let c = pieces.last();
        if c.len() == 0 || c == seq!['.'] {
            kept
        } else if c == seq!['.', '.'] {
            if kept.len() > 0 {
                kept.drop_last()
            } else {
                kept
            }
        } else {
            kept.push(c)
        }
    }
}

/// `path` joined onto the directory `cwd`, collapsed lexically into an
/// absolute path.
pub open spec fn spec_absolutize_from(cwd: Seq<char>, path: Seq<char>) -> Seq<char> {
    seq!['/'] + join_slash(collapsed_names(split_slash(path_join(cwd, path))))
}

/// `path` made absolute against the directory `cwd`, which an absolute
/// `path` ignores, and collapsed lexically: `.` and repeated `/` vanish and
/// each `..` removes the name before it.
pub fn absolutize_from(cwd: &str, path: &str) -> (absolute: String)
    ensures
        absolute@ == spec_absolutize_from(cwd@, path@),
{
    let joined = join_path(cwd, path);
    let chars = chars_of(joined.as_str());
    let pieces = slash_pieces(&chars);
    let texts = piece_texts(&chars, joined.as_str(), &pieces);
    assert(texts.deep_view() =~= split_slash(joined@));
    let ghost all = texts.deep_view();
    let mut kept: Vec<String> = Vec::new();
    let mut i: usize = 0;
    while i < texts.len()
        invariant
            i <= texts@.len(),
            all == texts.deep_view(),
            kept.deep_view() == collapsed_names(all.take(i as int)),
        decreases texts.len() - i,
    {
        proof {
            assert(all.take(i + 1).drop_last() =~= all.take(i as int));
        }
        let ghost before = kept.deep_view();
        let c = texts[i].as_str();
        if c.unicode_len() == 0 || is_dot(c) {
        } else if is_dot_dot(c) {
            if kept.len() > 0 {
                kept.pop();
                assert(kept.deep_view() =~= before.drop_last());
            }
        } else {
            kept.push(texts[i].clone());
            assert(kept.deep_view() =~= before.push(all[i as int]));
        }
        i = i + 1;
    }
    assert(all.take(texts@.len() as int) =~= all);
    let names = join_texts(&kept);
    let mut absolute = String::from_str("/");
    absolute.append(names.as_str());
    proof {
        reveal_strlit("/");
    }
    absolute
}

/// Whether `text` is exactly `.`.
fn is_dot(text: &str) -> (dot: bool)
    ensures
        dot == (text@ == seq!['.']),
{
    let chars = chars_of(text);
    if chars.len() == 1 && chars[0] == '.' {
        assert(text@ =~= seq!['.']);
        true
    } else {
        assert(chars.len() == 1 ==> text@[0] == chars@[0]);
        false
    }
}

/// Whether `text` is exactly `..`.
fn is_dot_dot(text: &str) -> (dots: bool)
    ensures
        dots == (text@ == seq!['.', '.']),
{
    let chars = chars_of(text);
    if chars.len() == 2 && chars[0] == '.' && chars[1] == '.' {
        assert(text@ =~= seq!['.', '.']);
        true
    } else {
        assert(chars.len() == 2 ==> text@[0] == chars@[0] && text@[1] == chars@[1]);
        false
    }
}

/// Where the symlink target `target`, written in directory `parent`, lands
/// relative to the destination when read lexically, following no link; `None`
/// where it lands outside.
pub fn contained_target(parent: &str, target: &str) -> (landing: Option<String>)
    ensures
        match landing {
            Some(l) => spec_contained_target(parent@, target@) == Some(l@),
            None => spec_contained_target(parent@, target@) is None,
        },
{
    let comps = match split_target(target) {
        Some(c) => c,
        None => return None,
    };
    let mut walked = parent_components(parent);
    let ghost start = walked.deep_view();
    let ghost all = comps.deep_view();
    assert(all.skip(0) =~= all);
    let mut i: usize = 0;
    while i < comps.len()
        invariant
            i <= comps@.len(),
            all == comps.deep_view(),
            all == split_slash(target@),
            start == nonempty_components(split_slash(parent@)),
            !spec_target_unresolvable(target@),
            walk_lexical(start, all) == walk_lexical(walked.deep_view(), all.skip(i as int)),
        decreases comps.len() - i,
    {
        let c = comps[i].as_str();
        proof {
            assert(all.skip(i as int)[0] == all[i as int]);
            assert(all.skip(i as int).drop_first() =~= all.skip(i + 1));
        }
        if c.unicode_len() == 0 || is_dot(c) {
        } else if is_dot_dot(c) {
            if walked.len() == 0 {
                return None;
            }
            let ghost before = walked.deep_view();
            walked.pop();
            assert(walked.deep_view() =~= before.drop_last());
        } else {
            let ghost before = walked.deep_view();
            walked.push(comps[i].clone());
            assert(walked.deep_view() =~= before.push(all[i as int]));
        }
        i = i + 1;
    }
    assert(all.skip(comps@.len() as int) =~= Seq::<Seq<char>>::empty());
    Some(join_texts(&walked))
}

// ---- path components and prefixes ----

/// The pieces that are names: neither empty nor `.`.
pub open spec fn named_pieces(pieces: Seq<Seq<char>>) -> Seq<Seq<char>>
    decreases pieces.len(),
{
    if pieces.len() == 0 {
        pieces
    } else {
        let kept = named_pieces(pieces.drop_last());
        let c = pieces.last();
        if c.len() > 0 && c != seq!['.'] {
            kept.push(c)
        } else {
            kept
        }
    }
}

/// The components a Unix path reads as, each as text: a leading `/` as `/`, a
/// leading `.` as `.`, then every piece that is neither empty nor `.`.
pub open spec fn path_components(s: Seq<char>) -> Seq<Seq<char>> {
    let pieces = split_slash(s);
    if s.len() > 0 && s[0] == '/' {
        seq![seq!['/']] + named_pieces(pieces)
    } else if pieces.len() > 0 && pieces[0] == seq!['.'] {
        seq![seq!['.']] + named_pieces(pieces.drop_first())
    } else {
        named_pieces(pieces)
    }
}

/// Whether `path` lies at or beneath `base`, component by component.
pub open spec fn spec_path_starts_with(path: Seq<char>, base: Seq<char>) -> bool {
    let p = path_components(path);
    let b = path_components(base);
    b.len() <= p.len() && p.take(b.len() as int) == b
}

/// The texts of `pieces` that are names.
fn named_texts(pieces: &Vec<String>, from: usize) -> (names: Vec<String>)
    requires
        from <= pieces@.len(),
    ensures
        names.deep_view() == named_pieces(pieces.deep_view().skip(from as int)),
{
    let ghost all = pieces.deep_view().skip(from as int);
    let mut names: Vec<String> = Vec::new();
    let mut i: usize = from;
    while i < pieces.len()
        invariant
            from <= i <= pieces@.len(),
            all == pieces.deep_view().skip(from as int),
            names.deep_view() == named_pieces(all.take(i - from)),
        decreases pieces.len() - i,
    {
        proof {
            assert(all.take(i - from + 1).drop_last() =~= all.take(i - from));
            assert(all.take(i - from + 1).last() == pieces@[i as int]@);
        }
        let p = pieces[i].as_str();
        if p.unicode_len() > 0 && !is_dot(p) {
            let ghost before = names.deep_view();
            names.push(pieces[i].clone());
            assert(names.deep_view() =~= before.push(pieces@[i as int]@));
        }
        i = i + 1;
    }
    assert(all.take(pieces@.len() - from) =~= all);
    names
}

/// The components `s` reads as.
pub fn path_components_of(s: &str) -> (components: Vec<String>)
    ensures
        components.deep_view() == path_components(s@),
{
    let chars = chars_of(s);
    let pieces = slash_pieces(&chars);
    let texts = piece_texts(&chars, s, &pieces);
    assert(texts.deep_view() =~= split_slash(s@));
    proof {
        lemma_split_slash_nonempty(s@);
    }
    assert(texts.deep_view().skip(0) =~= texts.deep_view());
    if chars.len() > 0 && chars[0] == '/' {
        let mut components: Vec<String> = Vec::new();
        let slash = String::from_str("/");
        proof {
            reveal_strlit("/");
        }
        assert(slash@ =~= seq!['/']);
        components.push(slash);
        let rest = named_texts(&texts, 0);
        let mut i: usize = 0;
        let ghost head = components.deep_view();
        assert(head =~= seq![seq!['/']]);
        while i < rest.len()
            invariant
                i <= rest@.len(),
                components.deep_view() == head + rest.deep_view().take(i as int),
            decreases rest.len() - i,
        {
            let ghost b = components.deep_view();
            components.push(rest[i].clone());
            assert(components.deep_view() =~= b.push(rest@[i as int]@));
            assert(components.deep_view() =~= head + rest.deep_view().take(i + 1));
            i = i + 1;
        }
        assert(rest.deep_view().take(rest@.len() as int) =~= rest.deep_view());
        components
    } else if is_dot(texts[0].as_str()) {
        let mut components: Vec<String> = Vec::new();
        let dot = String::from_str(".");
        proof {
            reveal_strlit(".");
        }
        assert(dot@ =~= seq!['.']);
        components.push(dot);
        let rest = named_texts(&texts, 1);
        assert(texts.deep_view().skip(1) =~= texts.deep_view().drop_first());
        let mut i: usize = 0;
        let ghost head = components.deep_view();
        assert(head =~= seq![seq!['.']]);
        while i < rest.len()
            invariant
                i <= rest@.len(),
                components.deep_view() == head + rest.deep_view().take(i as int),
            decreases rest.len() - i,
        {
            let ghost b = components.deep_view();
            components.push(rest[i].clone());
            assert(components.deep_view() =~= b.push(rest@[i as int]@));
            assert(components.deep_view() =~= head + rest.deep_view().take(i + 1));
            i = i + 1;
        }
        assert(rest.deep_view().take(rest@.len() as int) =~= rest.deep_view());
        components
    } else {
        named_texts(&texts, 0)
    }
}

/// Whether `path` lies at or beneath `base`, component by component.
pub fn path_starts_with(path: &str, base: &str) -> (beneath: bool)
    ensures
        beneath == spec_path_starts_with(path@, base@),
{
    let p = path_components_of(path);
    let b = path_components_of(base);
    assert(p.deep_view().len() == p@.len() && b.deep_view().len() == b@.len());
    if b.len() > p.len() {
        return false;
    }
    let mut i: usize = 0;
    while i < b.len()
        invariant
            i <= b@.len() <= p@.len(),
            p.deep_view() == path_components(path@),
            b.deep_view() == path_components(base@),
            forall|k: int| 0 <= k < i ==> p@[k]@ == b@[k]@,
        decreases b.len() - i,
    {
        if !text_eq(p[i].as_str(), b[i].as_str()) {
            assert(p.deep_view().take(b@.len() as int)[i as int] != b.deep_view()[i as int]);
            assert(p.deep_view().take(b@.len() as int) != b.deep_view());
            return false;
        }
        i = i + 1;
    }
    assert(p.deep_view().take(b@.len() as int) =~= b.deep_view());
    true
}

// ---- resolving a target through the links it meets ----

/// What stands at one destination-relative path a target's resolution walks
/// through.
#[derive(Debug, Clone, PartialEq, Eq)]
pub enum Hop {
    /// Nothing that continues the chain; resolution walks on through the name.
    Terminal,
    /// A symlink pointing at this target string; resolution continues through
    /// it from the link's own parent.
    Link(String),
    /// A hop nobody can follow; resolution ends outside the destination.
    Unresolvable,
}

/// The next thing a resolution needs.
#[derive(Debug, PartialEq, Eq)]
pub enum ChainStep {
    /// The walk is done: the target lands at this destination-relative path.
    Landed(String),
    /// What stands at this destination-relative path decides how the walk
    /// goes on: answer with [`ChainWalk::answer`].
    Ask(String),
    /// The target lands outside the destination.
    Outside,
}

/// The mathematical value of a [`ChainStep`].
pub enum ChainStepView {
    Landed(Seq<char>),
    Ask(Seq<char>),
    Outside,
}

impl View for ChainStep {
    type V = ChainStepView;

    open spec fn view(&self) -> ChainStepView {
        match self {
            ChainStep::Landed(p) => ChainStepView::Landed(p@),
            ChainStep::Ask(p) => ChainStepView::Ask(p@),
            ChainStep::Outside => ChainStepView::Outside,
        }
    }
}

/// Walks `remaining` from `walked` up to the next name that needs asking
/// about: the step, and the walked and remaining components after it.
pub open spec fn chain_advance(walked: Seq<Seq<char>>, remaining: Seq<Seq<char>>) -> (
    ChainStepView,
    Seq<Seq<char>>,
    Seq<Seq<char>>,
)
    decreases remaining.len(),
{
    if remaining.len() == 0 {
        (ChainStepView::Landed(join_slash(walked)), walked, remaining)
    } else {
        let c = remaining[0];
        let rest = remaining.drop_first();
        if c.len() == 0 || c == seq!['.'] {
            chain_advance(walked, rest)
        } else if c == seq!['.', '.'] {
            if walked.len() == 0 {
                (ChainStepView::Outside, walked, rest)
            } else {
                chain_advance(walked.drop_last(), rest)
            }
        } else {
            (ChainStepView::Ask(join_slash(walked.push(c))), walked.push(c), rest)
        }
    }
}

/// Each advance consumes at least one component.
pub proof fn lemma_advance_consumes(walked: Seq<Seq<char>>, remaining: Seq<Seq<char>>)
    ensures
        remaining.len() > 0 ==> chain_advance(walked, remaining).2.len() < remaining.len(),
        remaining.len() == 0 ==> chain_advance(walked, remaining).2 == remaining,
    decreases remaining.len(),
{
    if remaining.len() > 0 {
        let c = remaining[0];
        let rest = remaining.drop_first();
        if c.len() == 0 || c == seq!['.'] {
            lemma_advance_consumes(walked, rest);
        } else if c == seq!['.', '.'] && walked.len() > 0 {
            lemma_advance_consumes(walked.drop_last(), rest);
        }
    }
}

/// The path an advance asks about is the walked path it stops at.
pub proof fn lemma_ask_names_walked(walked: Seq<Seq<char>>, remaining: Seq<Seq<char>>)
    ensures
        chain_advance(walked, remaining).0 matches ChainStepView::Ask(h) ==> h == join_slash(
            chain_advance(walked, remaining).1,
        ) && chain_advance(walked, remaining).1.len() > 0,
    decreases remaining.len(),
{
    if remaining.len() > 0 {
        let c = remaining[0];
        let rest = remaining.drop_first();
        if c.len() == 0 || c == seq!['.'] {
            lemma_ask_names_walked(walked, rest);
        } else if c == seq!['.', '.'] && walked.len() > 0 {
            lemma_ask_names_walked(walked.drop_last(), rest);
        }
    }
}

/// Where a resolution lands when every path it asks about holds nothing that
/// continues the chain: `None` where it lands outside.
pub open spec fn resolve_terminal(walked: Seq<Seq<char>>, remaining: Seq<Seq<char>>) -> Option<
    Seq<char>,
>
    decreases remaining.len(),
{
    let (step, w, r) = chain_advance(walked, remaining);
    match step {
        ChainStepView::Landed(p) => Some(p),
        ChainStepView::Outside => None,
        ChainStepView::Ask(_) => {
            proof {
                lemma_advance_consumes(walked, remaining);
            }
            if r.len() < remaining.len() {
                resolve_terminal(w, r)
            } else {
                None
            }
        },
    }
}

/// Resolving through nothing but terminal hops walks exactly as the lexical
/// grading does.
proof fn lemma_terminal_walk_is_lexical(walked: Seq<Seq<char>>, remaining: Seq<Seq<char>>)
    ensures
        resolve_terminal(walked, remaining) == match walk_lexical(walked, remaining) {
            Some(w) => Some(join_slash(w)),
            None => None,
        },
    decreases remaining.len(),
{
    lemma_advance_consumes(walked, remaining);
    if remaining.len() > 0 {
        let c = remaining[0];
        let rest = remaining.drop_first();
        lemma_advance_consumes(walked, rest);
        if c.len() == 0 || c == seq!['.'] {
            lemma_terminal_walk_is_lexical(walked, rest);
            assert(chain_advance(walked, remaining) == chain_advance(walked, rest));
        } else if c == seq!['.', '.'] {
            if walked.len() > 0 {
                lemma_advance_consumes(walked.drop_last(), rest);
                lemma_terminal_walk_is_lexical(walked.drop_last(), rest);
                assert(chain_advance(walked, remaining) == chain_advance(walked.drop_last(), rest));
            }
        } else {
            lemma_terminal_walk_is_lexical(walked.push(c), rest);
        }
    }
}

/// The lexical grading is the chain over a destination holding no links: a
/// resolution whose every hop is terminal lands where [`contained_target`]
/// says, and outside exactly where it says outside.
pub proof fn lemma_terminal_chain_is_lexical(parent: Seq<char>, target: Seq<char>)
    requires
        !spec_target_unresolvable(target),
    ensures
        resolve_terminal(nonempty_components(split_slash(parent)), split_slash(target))
            == spec_contained_target(parent, target),
{
    lemma_terminal_walk_is_lexical(nonempty_components(split_slash(parent)), split_slash(target));
}

/// The resolution of a symlink target through whatever stands at each path it
/// walks: a link met there splices its own target in, and a link met twice
/// ends the resolution outside. The visited set is a cycle guard, not a hop
/// limit: a chain may be arbitrarily long.
pub struct ChainWalk {
    /// The destination-relative components walked so far.
    pub walked: Vec<String>,
    /// The components still to walk, front first.
    pub remaining: Vec<String>,
    /// The paths at which a link was followed.
    pub visited: Vec<String>,
}

impl ChainWalk {
    /// A resolution of `target` written in directory `parent`, or `None` for
    /// a target that cannot be resolved from inside the destination at all.
    pub fn new(parent: &str, target: &str) -> (walk: Option<ChainWalk>)
        ensures
            match walk {
                None => spec_target_unresolvable(target@),
                Some(w) => {
                    &&& !spec_target_unresolvable(target@)
                    &&& w.walked.deep_view() == nonempty_components(split_slash(parent@))
                    &&& w.remaining.deep_view() == split_slash(target@)
                    &&& w.visited@.len() == 0
                },
            },
    {
        match split_target(target) {
            None => None,
            Some(remaining) => Some(
                ChainWalk { walked: parent_components(parent), remaining, visited: Vec::new() },
            ),
        }
    }

    /// Walks on to the next name that needs asking about, the landing, or the
    /// point where the walk leaves the destination.
    pub fn next(&mut self) -> (step: ChainStep)
        ensures
            ({
                let (s, w, r) = chain_advance(old(self).walked.deep_view(), old(self).remaining.deep_view());
                &&& step@ == s
                &&& (step is Ask ==> final(self).walked@.len() > 0)
                &&& final(self).walked.deep_view() == w
                &&& final(self).remaining.deep_view() == r
                &&& final(self).visited == old(self).visited
            }),
    {
        let ghost goal = chain_advance(self.walked.deep_view(), self.remaining.deep_view());
        loop
            invariant
                chain_advance(self.walked.deep_view(), self.remaining.deep_view()) == goal,
                goal == chain_advance(old(self).walked.deep_view(), old(self).remaining.deep_view()),
                self.visited == old(self).visited,
            decreases self.remaining@.len(),
        {
            if self.remaining.len() == 0 {
                return ChainStep::Landed(join_texts(&self.walked));
            }
            let ghost before_walked = self.walked.deep_view();
            let ghost before_remaining = self.remaining.deep_view();
            let c = self.remaining.remove(0);
            assert(self.remaining.deep_view() =~= before_remaining.drop_first());
            assert(c@ == before_remaining[0]);
            if c.as_str().unicode_len() == 0 || is_dot(c.as_str()) {
            } else if is_dot_dot(c.as_str()) {
                if self.walked.len() == 0 {
                    return ChainStep::Outside;
                }
                self.walked.pop();
                assert(self.walked.deep_view() =~= before_walked.drop_last());
            } else {
                self.walked.push(c);
                assert(self.walked.deep_view() =~= before_walked.push(before_remaining[0]));
                return ChainStep::Ask(join_texts(&self.walked));
            }
        }
    }

    /// Answers the path [`next`](Self::next) asked about, the last walked
    /// one: `false` where the resolution now ends outside the destination.
    pub fn answer(&mut self, hop: Hop) -> (going: bool)
        requires
            old(self).walked@.len() > 0,
        ensures
            ({
                let here = join_slash(old(self).walked.deep_view());
                match hop {
                    Hop::Terminal => going && *final(self) == *old(self),
                    Hop::Unresolvable => !going,
                    Hop::Link(t) => if old(self).visited.deep_view().contains(here) {
                        !going
                    } else if spec_target_unresolvable(t@) {
                        !going
                    } else {
                        &&& going
                        &&& final(self).walked.deep_view() == old(self).walked.deep_view().drop_last()
                        &&& final(self).visited.deep_view() == old(self).visited.deep_view().push(here)
                        &&& final(self).remaining.deep_view() == split_slash(t@) + old(
                            self,
                        ).remaining.deep_view()
                    },
                }
            }),
    {
        match hop {
            Hop::Terminal => true,
            Hop::Unresolvable => false,
            Hop::Link(t) => {
                let here = join_texts(&self.walked);
                let ghost before_walked = self.walked.deep_view();
                self.walked.pop();
                assert(self.walked.deep_view() =~= before_walked.drop_last());
                match crate::manifest::position_of(&self.visited, here.as_str()) {
                    Some(i) => {
                        assert(self.visited.deep_view()[i as int] == here@);
                        return false;
                    },
                    None => {},
                }
                let ghost before_visited = self.visited.deep_view();
                self.visited.push(here);
                assert(self.visited.deep_view() =~= before_visited.push(join_slash(before_walked)));
                let spliced = match split_target(t.as_str()) {
                    Some(s) => s,
                    None => return false,
                };
                let mut remaining = spliced;
                let ghost head = remaining.deep_view();
                let mut i: usize = 0;
                while i < self.remaining.len()
                    invariant
                        i <= self.remaining@.len(),
                        remaining.deep_view() == head + self.remaining.deep_view().take(i as int),
                    decreases self.remaining.len() - i,
                {
                    let ghost b = remaining.deep_view();
                    remaining.push(self.remaining[i].clone());
                    assert(remaining.deep_view() =~= b.push(self.remaining@[i as int]@));
                    assert(remaining.deep_view() =~= head + self.remaining.deep_view().take(i + 1));
                    i = i + 1;
                }
                assert(self.remaining.deep_view().take(self.remaining@.len() as int)
                    =~= self.remaining.deep_view());
                self.remaining = remaining;
                true
            },
        }
    }
}

// ---- the gateway's output is a fixed point ----

/// A component the gateway keeps: not empty, not `.` or `..`, and nothing
/// Windows resolves specially.
pub open spec fn is_clean_component(c: Seq<char>) -> bool {
    &&& c.len() > 0
    &&& c != seq!['.']
    &&& c != seq!['.', '.']
    &&& !spec_windows_resolves_specially(c)
}

/// Every piece between slashes is made of characters of `s` other than `/`.
proof fn lemma_pieces_are_slash_free(s: Seq<char>)
    ensures
        split_slash(s).len() >= 1,
        forall|i: int, k: int|
            0 <= i < split_slash(s).len() && 0 <= k < split_slash(s)[i].len() ==> {
                &&& #[trigger] split_slash(s)[i][k] != '/'
                &&& s.contains(split_slash(s)[i][k])
            },
    decreases s.len(),
{
    if s.len() > 0 {
        let t = s.drop_last();
        lemma_pieces_are_slash_free(t);
        let p = split_slash(t);
        let q = split_slash(s);
        assert forall|i: int, k: int|
            0 <= i < q.len() && 0 <= k < q[i].len() implies {
                &&& #[trigger] q[i][k] != '/'
                &&& s.contains(q[i][k])
            } by {
            if s.last() == '/' {
                assert(q == p.push(Seq::<char>::empty()));
                assert(i < p.len());
                assert(q[i] == p[i]);
                let j = choose|j: int| 0 <= j < t.len() && t[j] == p[i][k];
                assert(s[j] == t[j]);
            } else {
                assert(q == p.update(p.len() - 1, p.last().push(s.last())));
                if i < p.len() - 1 || k < p[i].len() {
                    if i == p.len() - 1 {
                        assert(q[i] == p[i].push(s.last()));
                    }
                    assert(q[i][k] == p[i][k]);
                    let j = choose|j: int| 0 <= j < t.len() && t[j] == p[i][k];
                    assert(s[j] == t[j]);
                } else {
                    assert(q[i] == p[i].push(s.last()));
                    assert(q[i][k] == s.last());
                    assert(s[s.len() - 1] == s.last());
                }
            }
        }
    }
}

/// Splitting at slashes always leaves at least one piece.
pub(crate) proof fn lemma_split_slash_nonempty(s: Seq<char>)
    ensures
        split_slash(s).len() >= 1,
{
    lemma_pieces_are_slash_free(s);
}

/// What the gateway keeps are clean components drawn from the pieces.
proof fn lemma_kept_are_clean(pieces: Seq<Seq<char>>)
    requires
        kept_components(pieces) is Some,
    ensures
        forall|j: int|
            0 <= j < kept_components(pieces)->0.len() ==> {
                &&& is_clean_component(#[trigger] kept_components(pieces)->0[j])
                &&& pieces.contains(kept_components(pieces)->0[j])
            },
    decreases pieces.len(),
{
    if pieces.len() > 0 {
        let rest = pieces.drop_last();
        lemma_kept_are_clean(rest);
        let kept = kept_components(rest)->0;
        assert forall|j: int|
            0 <= j < kept_components(pieces)->0.len() implies {
                &&& is_clean_component(#[trigger] kept_components(pieces)->0[j])
                &&& pieces.contains(kept_components(pieces)->0[j])
            } by {
            let c = kept_components(pieces)->0[j];
            if j < kept.len() {
                assert(c == kept[j]);
                let i = choose|i: int| 0 <= i < rest.len() && rest[i] == c;
                assert(pieces[i] == c);
            } else {
                assert(c == pieces.last());
                assert(pieces[pieces.len() - 1] == c);
            }
        }
    }
}

/// Clean components are kept as they are.
proof fn lemma_clean_components_are_kept(cs: Seq<Seq<char>>)
    requires
        forall|j: int| 0 <= j < cs.len() ==> is_clean_component(#[trigger] cs[j]),
    ensures
        kept_components(cs) == Some(cs),
    decreases cs.len(),
{
    if cs.len() > 0 {
        lemma_clean_components_are_kept(cs.drop_last());
        assert(cs.drop_last().push(cs.last()) =~= cs);
    }
}

/// Text without a slash is one piece.
proof fn lemma_split_without_slash(c: Seq<char>)
    requires
        !c.contains('/'),
    ensures
        split_slash(c) == seq![c],
    decreases c.len(),
{
    if c.len() > 0 {
        let d = c.drop_last();
        assert(!d.contains('/')) by {
            if d.contains('/') {
                let j = choose|j: int| 0 <= j < d.len() && d[j] == '/';
                assert(c[j] == '/');
            }
        }
        lemma_split_without_slash(d);
        assert(c[c.len() - 1] != '/');
        assert(d.push(c.last()) =~= c);
        let p = split_slash(d);
        assert(p.len() == 1 && p.last() == d);
        assert(split_slash(c) == p.update(0, c));
        assert(p.update(0, c) =~= seq![c]);
    } else {
        assert(c =~= Seq::<char>::empty());
    }
}

/// Splitting `a`, a slash, and slash-free `c` splits `a` and adds `c`.
proof fn lemma_split_after_slash(a: Seq<char>, c: Seq<char>)
    requires
        !c.contains('/'),
    ensures
        split_slash(a + seq!['/'] + c) == split_slash(a).push(c),
    decreases c.len(),
{
    let s = a + seq!['/'] + c;
    if c.len() == 0 {
        assert(s.last() == '/');
        assert(s.drop_last() =~= a);
        assert(c =~= Seq::<char>::empty());
        assert(split_slash(s) == split_slash(a).push(Seq::<char>::empty()));
    } else {
        let d = c.drop_last();
        assert(!d.contains('/')) by {
            if d.contains('/') {
                let j = choose|j: int| 0 <= j < d.len() && d[j] == '/';
                assert(c[j] == '/');
            }
        }
        lemma_split_after_slash(a, d);
        assert(s.drop_last() =~= a + seq!['/'] + d);
        assert(c[c.len() - 1] != '/');
        assert(s.last() == c.last());
        assert(d.push(c.last()) =~= c);
        let p = split_slash(a + seq!['/'] + d);
        assert(p == split_slash(a).push(d));
        assert(split_slash(s) == p.update(p.len() - 1, p.last().push(s.last())));
        assert(p.update(p.len() - 1, c) =~= split_slash(a).push(c));
    }
}

/// Joining slash-free components and splitting again gives them back.
proof fn lemma_split_join(cs: Seq<Seq<char>>)
    requires
        cs.len() > 0,
        forall|j: int| 0 <= j < cs.len() ==> !(#[trigger] cs[j]).contains('/'),
    ensures
        split_slash(join_slash(cs)) == cs,
    decreases cs.len(),
{
    if cs.len() == 1 {
        lemma_split_without_slash(cs[0]);
        assert(seq![cs[0]] =~= cs);
    } else {
        lemma_split_join(cs.drop_last());
        lemma_split_after_slash(join_slash(cs.drop_last()), cs.last());
        assert(cs.drop_last().push(cs.last()) =~= cs);
    }
}

/// Every character of a join is a slash or a character of a component, and
/// a join of components whose first is not empty starts with that first
/// component's first character.
proof fn lemma_join_chars(cs: Seq<Seq<char>>)
    requires
        cs.len() > 0,
    ensures
        forall|x: int|
            0 <= x < join_slash(cs).len() ==> #[trigger] join_slash(cs)[x] == '/' || exists|j: int|
                0 <= j < cs.len() && cs[j].contains(join_slash(cs)[x]),
        cs[0].len() > 0 ==> join_slash(cs).len() > 0 && join_slash(cs)[0] == cs[0][0],
    decreases cs.len(),
{
    if cs.len() > 1 {
        let rest = cs.drop_last();
        lemma_join_chars(rest);
        let head = join_slash(rest);
        let joined = join_slash(cs);
        assert(joined == head + seq!['/'] + cs.last());
        assert forall|x: int| 0 <= x < joined.len() implies #[trigger] joined[x] == '/' || exists|j: int|
            0 <= j < cs.len() && cs[j].contains(joined[x]) by {
            if x < head.len() {
                assert(joined[x] == head[x]);
                if head[x] != '/' {
                    let j = choose|j: int| 0 <= j < rest.len() && rest[j].contains(head[x]);
                    assert(cs[j] == rest[j]);
                }
            } else if x > head.len() {
                let k = x - head.len() - 1;
                assert(joined[x] == cs.last()[k]);
                assert(cs[cs.len() - 1].contains(joined[x]));
            }
        }
        if cs[0].len() > 0 {
            assert(rest[0] == cs[0]);
        }
    } else {
        assert(join_slash(cs) == cs[0]);
        assert forall|x: int| 0 <= x < join_slash(cs).len() implies #[trigger] join_slash(cs)[x] == '/'
            || exists|j: int| 0 <= j < cs.len() && cs[j].contains(join_slash(cs)[x]) by {
            assert(cs[0].contains(cs[0][x]));
        }
    }
}

/// A plain name: a component the gateway keeps, holding no `/`, backslash
/// or NUL.
pub open spec fn is_plain_component(c: Seq<char>) -> bool {
    &&& is_clean_component(c)
    &&& !c.contains('/')
    &&& !c.contains('\\')
    &&& !c.contains('\0')
}

/// Plain names joined with `/` split back into themselves and pass the
/// gateway unchanged.
pub proof fn lemma_plain_join_normalizes(cs: Seq<Seq<char>>)
    requires
        cs.len() > 0,
        forall|j: int| 0 <= j < cs.len() ==> is_plain_component(#[trigger] cs[j]),
    ensures
        split_slash(join_slash(cs)) == cs,
        spec_contained_normalize(join_slash(cs)) == Some(join_slash(cs)),
{
    let n = join_slash(cs);
    lemma_split_join(cs);
    lemma_clean_components_are_kept(cs);
    lemma_join_chars(cs);
    assert(!n.contains('\\')) by {
        if n.contains('\\') {
            let x = choose|x: int| 0 <= x < n.len() && n[x] == '\\';
            assert(n[x] == '/' || exists|j: int| 0 <= j < cs.len() && cs[j].contains(n[x]));
        }
    }
    assert(!n.contains('\0')) by {
        if n.contains('\0') {
            let x = choose|x: int| 0 <= x < n.len() && n[x] == '\0';
            assert(n[x] == '/' || exists|j: int| 0 <= j < cs.len() && cs[j].contains(n[x]));
        }
    }
    assert(n[0] != '/') by {
        assert(cs[0].len() > 0);
        assert(!cs[0].contains('/'));
        assert(cs[0].contains(cs[0][0]));
    }
}

/// A path the gateway normalizes steps nowhere but down: what it normalizes
/// to splits into plain names alone, none of them empty, `.`, `..`, or
/// anything Windows resolves specially.
pub proof fn lemma_normalized_components_are_plain(rel: Seq<char>)
    requires
        spec_contained_normalize(rel) is Some,
    ensures
        split_slash(spec_contained_normalize(rel)->0).len() > 0,
        join_slash(split_slash(spec_contained_normalize(rel)->0)) == spec_contained_normalize(rel)->0,
        forall|i: int|
            0 <= i < split_slash(spec_contained_normalize(rel)->0).len() ==> is_plain_component(
                #[trigger] split_slash(spec_contained_normalize(rel)->0)[i],
            ),
{
    let pieces = split_slash(rel);
    let kept = kept_components(pieces)->0;
    lemma_pieces_are_slash_free(rel);
    lemma_kept_are_clean(pieces);
    assert forall|j: int| 0 <= j < kept.len() implies is_plain_component(#[trigger] kept[j]) by {
        let i = choose|i: int| 0 <= i < pieces.len() && pieces[i] == kept[j];
        if kept[j].contains('/') {
            let k = choose|k: int| 0 <= k < kept[j].len() && kept[j][k] == '/';
            assert(pieces[i][k] == '/');
        }
        if kept[j].contains('\\') {
            let k = choose|k: int| 0 <= k < kept[j].len() && kept[j][k] == '\\';
            assert(pieces[i][k] == '\\');
            assert(rel.contains(pieces[i][k]));
        }
        if kept[j].contains('\0') {
            let k = choose|k: int| 0 <= k < kept[j].len() && kept[j][k] == '\0';
            assert(pieces[i][k] == '\0');
            assert(rel.contains(pieces[i][k]));
        }
    }
    lemma_plain_join_normalizes(kept);
}

/// Joining two runs of components is joining each and putting a `/` between.
pub proof fn lemma_join_concat(a: Seq<Seq<char>>, b: Seq<Seq<char>>)
    requires
        a.len() > 0,
        b.len() > 0,
    ensures
        join_slash(a + b) == join_slash(a) + seq!['/'] + join_slash(b),
    decreases b.len(),
{
    if b.len() == 1 {
        assert((a + b).drop_last() =~= a);
        assert((a + b).last() == b[0]);
    } else {
        lemma_join_concat(a, b.drop_last());
        assert((a + b).drop_last() =~= a + b.drop_last());
        assert((a + b).last() == b.last());
        assert(join_slash(a) + seq!['/'] + join_slash(b.drop_last()) + seq!['/'] + b.last()
            =~= join_slash(a) + seq!['/'] + (join_slash(b.drop_last()) + seq!['/'] + b.last()));
    }
}

/// Two normalized paths joined with a `/` make a normalized path: placing
/// one normalized tree under a normalized prefix never climbs out of it.
pub proof fn lemma_normalized_under_normalized(prefix: Seq<char>, rel: Seq<char>)
    requires
        spec_contained_normalize(prefix) == Some(prefix),
        spec_contained_normalize(rel) == Some(rel),
    ensures
        spec_contained_normalize(prefix + seq!['/'] + rel) == Some(prefix + seq!['/'] + rel),
{
    lemma_normalized_components_are_plain(prefix);
    lemma_normalized_components_are_plain(rel);
    let a = split_slash(prefix);
    let b = split_slash(rel);
    lemma_join_concat(a, b);
    assert forall|j: int| 0 <= j < (a + b).len() implies is_plain_component(#[trigger] (a + b)[j]) by {
        if j < a.len() {
            assert((a + b)[j] == a[j]);
        } else {
            assert((a + b)[j] == b[j - a.len()]);
        }
    }
    lemma_plain_join_normalizes(a + b);
}

/// The gateway's output is a fixed point: a path it normalizes normalizes to
/// itself, so a key the planner derives passes apply's check that every key
/// is already in normalized form.
pub proof fn lemma_normalized_paths_normalize_to_themselves(rel: Seq<char>)
    requires
        spec_contained_normalize(rel) is Some,
    ensures
        spec_contained_normalize(spec_contained_normalize(rel)->0) == spec_contained_normalize(rel),
{
    lemma_normalized_components_are_plain(rel);
    let n = spec_contained_normalize(rel)->0;
    lemma_plain_join_normalizes(split_slash(n));
}

/// What a collapse keeps are names drawn from the pieces: none empty, `.`,
/// or `..`.
proof fn lemma_collapsed_are_names(pieces: Seq<Seq<char>>)
    ensures
        forall|j: int|
            0 <= j < collapsed_names(pieces).len() ==> {
                let c = #[trigger] collapsed_names(pieces)[j];
                &&& c.len() > 0
                &&& c != seq!['.']
                &&& c != seq!['.', '.']
                &&& pieces.contains(c)
            },
    decreases pieces.len(),
{
    if pieces.len() > 0 {
        let rest = pieces.drop_last();
        lemma_collapsed_are_names(rest);
        let kept = collapsed_names(rest);
        assert forall|j: int| 0 <= j < collapsed_names(pieces).len() implies {
            let c = #[trigger] collapsed_names(pieces)[j];
            &&& c.len() > 0
            &&& c != seq!['.']
            &&& c != seq!['.', '.']
            &&& pieces.contains(c)
        } by {
            let c = collapsed_names(pieces)[j];
            if j < kept.len() && c == kept[j] {
                let i = choose|i: int| 0 <= i < rest.len() && rest[i] == c;
                assert(pieces[i] == c);
            } else {
                assert(c == pieces.last());
                assert(pieces[pieces.len() - 1] == c);
            }
        }
    }
}

/// Collapsing an empty piece followed by names keeps exactly the names.
proof fn lemma_collapse_keeps_names(names: Seq<Seq<char>>)
    requires
        forall|j: int|
            0 <= j < names.len() ==> {
                let c = #[trigger] names[j];
                &&& c.len() > 0
                &&& c != seq!['.']
                &&& c != seq!['.', '.']
            },
    ensures
        collapsed_names(seq![Seq::<char>::empty()] + names) == names,
    decreases names.len(),
{
    let s = seq![Seq::<char>::empty()] + names;
    if names.len() == 0 {
        assert(s =~= seq![Seq::<char>::empty()]);
        assert(s.drop_last() =~= Seq::<Seq<char>>::empty());
        assert(s.last().len() == 0);
        assert(collapsed_names(s) == collapsed_names(s.drop_last()));
        assert(names =~= Seq::<Seq<char>>::empty());
    } else {
        lemma_collapse_keeps_names(names.drop_last());
        assert(s.drop_last() =~= seq![Seq::<char>::empty()] + names.drop_last());
        assert(s.last() == names.last());
        let c = names[names.len() - 1];
        assert(c == names.last());
        assert(c.len() > 0 && c != seq!['.'] && c != seq!['.', '.']);
        assert(collapsed_names(s) == collapsed_names(s.drop_last()).push(c));
        assert(names.drop_last().push(names.last()) =~= names);
    }
}

/// An absolute path is its own absolute form: making absolute what was
/// already made absolute changes nothing, whatever directory it is made
/// absolute against.
pub proof fn lemma_absolute_paths_stay_put(cwd: Seq<char>, first_cwd: Seq<char>, path: Seq<char>)
    ensures
        spec_absolutize_from(cwd, spec_absolutize_from(first_cwd, path)) == spec_absolutize_from(
            first_cwd,
            path,
        ),
{
    let pieces = split_slash(path_join(first_cwd, path));
    let names = collapsed_names(pieces);
    let a = spec_absolutize_from(first_cwd, path);
    assert(a[0] == '/');
    assert(path_join(cwd, a) == a);
    lemma_collapsed_are_names(pieces);
    lemma_pieces_are_slash_free(path_join(first_cwd, path));
    let parts = seq![Seq::<char>::empty()] + names;
    assert forall|j: int| 0 <= j < parts.len() implies !(#[trigger] parts[j]).contains('/') by {
        if j > 0 {
            assert(parts[j] == names[j - 1]);
            let i = choose|i: int| 0 <= i < pieces.len() && pieces[i] == names[j - 1];
            let c = names[j - 1];
            if c.contains('/') {
                let k = choose|k: int| 0 <= k < c.len() && #[trigger] c[k] == '/';
                assert(pieces[i][k] != '/');
            }
        } else {
            assert(parts[0] == Seq::<char>::empty());
        }
    }
    if names.len() == 0 {
        assert(a =~= seq!['/']);
        assert(a =~= Seq::<char>::empty() + seq!['/'] + Seq::<char>::empty());
        lemma_split_after_slash(Seq::<char>::empty(), Seq::<char>::empty());
        assert(split_slash(Seq::<char>::empty()) == seq![Seq::<char>::empty()]);
        assert(split_slash(a) =~= parts.push(Seq::<char>::empty()));
        let q = parts.push(Seq::<char>::empty());
        assert(q.drop_last() =~= parts);
        assert(parts.drop_last() =~= Seq::<Seq<char>>::empty());
        assert(q.last().len() == 0);
        assert(parts.last().len() == 0);
        assert(collapsed_names(q) == collapsed_names(parts));
        assert(collapsed_names(parts) == collapsed_names(Seq::<Seq<char>>::empty()));
        assert(collapsed_names(split_slash(a)) =~= Seq::<Seq<char>>::empty());
    } else {
        lemma_join_concat(seq![Seq::<char>::empty()], names);
        assert(join_slash(seq![Seq::<char>::empty()]) == Seq::<char>::empty());
        assert(join_slash(parts) =~= a);
        lemma_split_join(parts);
        lemma_collapse_keeps_names(names);
    }
}

} // verus!
