//! The checks a mapping passes before any source it names is read: its
//! declared version, every projected key against the containment gateway,
//! no path projected twice, and each file entry's choice between inline
//! `contents` and a `source` file.

use vstd::prelude::*;
use vstd::string::{StrSliceExecFns, StringExecFns};

use crate::archive::{with_text, Expanded};
use crate::containment::{chars_of, contained_normalize, spec_contained_normalize};
use crate::desired::Desired;
use crate::entry::{Entry, EntryView};
use crate::error::Error;
use crate::refusal::{Origin, OriginView, Refused};
use crate::text::text_eq;

verus! {

/// The mapping format version this crate accepts.
pub const MAPPING_VERSION: u32 = 1;

/// A `[files."..."]` table as the mapping spells it.
#[derive(Debug)]
pub struct FileTable {
    pub contents: Option<String>,
    pub source: Option<String>,
    pub executable: Option<bool>,
}

/// A `[links."..."]` table.
#[derive(Debug)]
pub struct LinkTable {
    pub target: String,
}

/// An `[archives."..."]` table.
#[derive(Debug)]
pub struct ArchiveTable {
    pub source: String,
    pub strip: Option<u32>,
}

/// A mapping's tables, each keyed as the mapping spells the key.
#[derive(Debug)]
pub struct Document {
    pub files: Vec<(String, FileTable)>,
    pub links: Vec<(String, LinkTable)>,
    pub archives: Vec<(String, ArchiveTable)>,
}

/// Where a file entry's bytes come from.
#[derive(Debug)]
pub enum Body {
    /// Inline text, written as its UTF-8 bytes.
    Contents(String),
    /// A file, resolved against the mapping file's own directory.
    Source(String),
}

/// A mapping that passed every check: each key normalized, in the order the
/// mapping lists its tables.
#[derive(Debug)]
pub struct MappingPlan {
    /// Normalized key, body, and the executable bit the entry sets, if any.
    pub files: Vec<(String, Body, Option<bool>)>,
    /// Normalized key and target.
    pub links: Vec<(String, String)>,
    /// Normalized prefix, archive source, and `strip` (0 where unset).
    pub archives: Vec<(String, String, u32)>,
}

/// Refuses a mapping declaring any version but [`MAPPING_VERSION`].
pub fn check_mapping_version(path: &str, found: u32) -> (checked: Result<(), Error>)
    ensures
        checked is Ok <==> found == MAPPING_VERSION,
        checked is Err ==> (checked matches Err(Error::MappingVersion { path: p, found: f, supported })
            && p@ == path@ && f == found && supported == MAPPING_VERSION),
{
    if found != MAPPING_VERSION {
        return Err(Error::MappingVersion { path: String::from_str(path), found, supported: MAPPING_VERSION });
    }
    Ok(())
}

/// `s` with each text kept once, at its first place.
pub open spec fn dedup(s: Seq<Seq<char>>) -> Seq<Seq<char>>
    decreases s.len(),
{
    if s.len() == 0 {
        s
    } else {
        with_text(dedup(s.drop_last()), s.last())
    }
}

/// The text that first repeats one before it, if any does.
pub open spec fn first_repeat(s: Seq<Seq<char>>) -> Option<Seq<char>>
    decreases s.len(),
{
    if s.len() == 0 {
        None
    } else {
        match first_repeat(s.drop_last()) {
            Some(x) => Some(x),
            None => if s.drop_last().contains(s.last()) {
                Some(s.last())
            } else {
                None
            },
        }
    }
}

/// An archive table's key without the one trailing `/` it may carry.
pub open spec fn archive_key_prefix(key: Seq<char>) -> Seq<char> {
    if key.len() > 0 && key.last() == '/' {
        key.drop_last()
    } else {
        key
    }
}

/// The text a key is judged as: a files or links key as it is, an archives
/// key without its trailing `/`.
pub open spec fn judged_key(key: Seq<char>, archive: bool) -> Seq<char> {
    if archive {
        archive_key_prefix(key)
    } else {
        key
    }
}

/// The keys of `entries` the gateway refuses, in order, as spelled.
pub open spec fn refused_keys<T>(entries: Seq<(String, T)>, archive: bool) -> Seq<Seq<char>>
    decreases entries.len(),
{
    if entries.len() == 0 {
        Seq::empty()
    } else {
        let rest = refused_keys(entries.drop_last(), archive);
        if spec_contained_normalize(judged_key(entries.last().0@, archive)) is None {
            rest.push(entries.last().0@)
        } else {
            rest
        }
    }
}

/// What each key of `entries` normalizes to, in order; a refused key stands
/// as it is spelled.
pub open spec fn normalized_keys<T>(entries: Seq<(String, T)>, archive: bool) -> Seq<Seq<char>> {
    Seq::new(
        entries.len(),
        |i: int|
            match spec_contained_normalize(judged_key(entries[i].0@, archive)) {
                Some(n) => n,
                None => entries[i].0@,
            },
    )
}

/// Every key the mapping's tables spell that the gateway refuses, each once.
pub open spec fn mapping_refused(doc: Document) -> Seq<Seq<char>> {
    dedup(
        refused_keys(doc.files@, false) + refused_keys(doc.links@, false) + refused_keys(
            doc.archives@,
            true,
        ),
    )
}

/// The first file entry setting both or neither of `contents` and `source`,
/// as spelled.
pub open spec fn first_unbodied(files: Seq<(String, FileTable)>) -> Option<Seq<char>>
    decreases files.len(),
{
    if files.len() == 0 {
        None
    } else {
        match first_unbodied(files.drop_last()) {
            Some(k) => Some(k),
            None => if (files.last().1.contents is Some) == (files.last().1.source is Some) {
                Some(files.last().0@)
            } else {
                None
            },
        }
    }
}

/// Which key each entry is judged as, normalized where the gateway passes it.
fn normalize_keys<T>(entries: &Vec<(String, T)>, archive: bool, refused: &mut Vec<String>) -> (normalized:
    Vec<String>)
    requires
        old(refused).deep_view().no_duplicates(),
    ensures
        final(refused).deep_view().no_duplicates(),
        final(refused).deep_view() == dedup(
            old(refused).deep_view() + refused_keys(entries@, archive),
        ),
        normalized.deep_view() == normalized_keys(entries@, archive),
{
    proof {
        lemma_dedup_of_distinct(refused.deep_view());
    }
    let ghost start = refused.deep_view();
    let mut normalized: Vec<String> = Vec::new();
    let mut i: usize = 0;
    while i < entries.len()
        invariant
            i <= entries@.len(),
            refused.deep_view().no_duplicates(),
            start == dedup(start),
            refused.deep_view() == dedup(start + refused_keys(entries@.take(i as int), archive)),
            normalized.deep_view() == normalized_keys(entries@.take(i as int), archive),
        decreases entries.len() - i,
    {
        let key = entries[i].0.as_str();
        let judged = if archive {
            without_trailing_slash(key)
        } else {
            key
        };
        proof {
            assert(entries@.take(i + 1).drop_last() =~= entries@.take(i as int));
            assert(entries@.take(i + 1).last() == entries@[i as int]);
        }
        let ghost raw = start + refused_keys(entries@.take(i as int), archive);
        assert(judged@ == judged_key(key@, archive));
        assert(entries@.take(i + 1)[i as int].0@ == key@);
        let ghost before = normalized.deep_view();
        match contained_normalize(judged) {
            Some(n) => {
                normalized.push(n);
            },
            None => {
                let spelled = String::from_str(key);
                crate::archive::insert_text(refused, spelled);
                proof {
                    assert(raw.push(key@) =~= start + refused_keys(entries@.take(i + 1), archive));
                    assert((raw.push(key@)).drop_last() =~= raw);
                }
                normalized.push(String::from_str(key));
            },
        }
        assert(normalized.deep_view() == before.push(normalized.deep_view().last()));
        assert(normalized.deep_view() =~= normalized_keys(entries@.take(i + 1), archive)) by {
            assert forall|k: int| 0 <= k < i implies normalized_keys(entries@.take(i + 1), archive)[k]
                == #[trigger] normalized_keys(entries@.take(i as int), archive)[k] by {
                assert(entries@.take(i + 1)[k] == entries@.take(i as int)[k]);
            }
        }
        i = i + 1;
    }
    assert(entries@.take(entries@.len() as int) =~= entries@);
    assert(start =~= start + refused_keys(entries@.take(0), archive));
    normalized
}

/// Keeping each text once is no change to a sequence that already does.
proof fn lemma_dedup_of_distinct(s: Seq<Seq<char>>)
    requires
        s.no_duplicates(),
    ensures
        dedup(s) == s,
    decreases s.len(),
{
    if s.len() > 0 {
        let t = s.drop_last();
        assert(t.no_duplicates()) by {
            assert forall|i: int, j: int| 0 <= i < t.len() && 0 <= j < t.len() && i != j implies t[i]
                != t[j] by {
                assert(s[i] == t[i] && s[j] == t[j]);
            }
        }
        lemma_dedup_of_distinct(t);
        assert(!t.contains(s.last())) by {
            if t.contains(s.last()) {
                let k = choose|k: int| 0 <= k < t.len() && t[k] == s.last();
                assert(s[k] == s[s.len() - 1]);
            }
        }
        assert(t.push(s.last()) =~= s);
    }
}

/// `key` without the one trailing `/` it may carry.
fn without_trailing_slash(key: &str) -> (prefix: &str)
    ensures
        prefix@ == archive_key_prefix(key@),
{
    let chars = chars_of(key);
    let n = chars.len();
    if n > 0 && chars[n - 1] == '/' {
        key.substring_char(0, n - 1)
    } else {
        assert(key@.subrange(0, n as int) =~= key@);
        key
    }
}


/// What keeping each text once makes of a sequence holds each text once.
proof fn lemma_dedup_distinct(s: Seq<Seq<char>>)
    ensures
        dedup(s).no_duplicates(),
    decreases s.len(),
{
    if s.len() > 0 {
        lemma_dedup_distinct(s.drop_last());
        let d = dedup(s.drop_last());
        if !d.contains(s.last()) {
            let e = d.push(s.last());
            assert forall|i: int, j: int| 0 <= i < e.len() && 0 <= j < e.len() && i != j implies e[i]
                != e[j] by {
                if i < d.len() && j < d.len() {
                    assert(e[i] == d[i] && e[j] == d[j]);
                } else if i < d.len() {
                    assert(e[i] == d[i]);
                    assert(d.contains(d[i]));
                } else if j < d.len() {
                    assert(e[j] == d[j]);
                    assert(d.contains(d[j]));
                }
            }
        }
    }
}

/// Keeping each text once, then again after more texts, is keeping each
/// text of the whole once.
proof fn lemma_dedup_absorbs(a: Seq<Seq<char>>, b: Seq<Seq<char>>)
    ensures
        dedup(dedup(a) + b) == dedup(a + b),
    decreases b.len(),
{
    if b.len() == 0 {
        lemma_dedup_distinct(a);
        lemma_dedup_of_distinct(dedup(a));
        assert(dedup(a) + b =~= dedup(a));
        assert(a + b =~= a);
    } else {
        lemma_dedup_absorbs(a, b.drop_last());
        assert((dedup(a) + b).drop_last() =~= dedup(a) + b.drop_last());
        assert((a + b).drop_last() =~= a + b.drop_last());
        assert((dedup(a) + b).last() == b.last());
        assert((a + b).last() == b.last());
    }
}

/// A text that repeats within a prefix is the first to repeat in the whole.
proof fn lemma_first_repeat_prefix(s: Seq<Seq<char>>, m: int)
    requires
        0 <= m <= s.len(),
        first_repeat(s.take(m)) is Some,
    ensures
        first_repeat(s) == first_repeat(s.take(m)),
    decreases s.len() - m,
{
    if m < s.len() {
        assert(s.take(m + 1).drop_last() =~= s.take(m));
        lemma_first_repeat_prefix(s, m + 1);
    } else {
        assert(s.take(m) =~= s);
    }
}

/// An entry without exactly one body within a prefix is the first in the
/// whole.
proof fn lemma_first_unbodied_prefix(files: Seq<(String, FileTable)>, m: int)
    requires
        0 <= m <= files.len(),
        first_unbodied(files.take(m)) is Some,
    ensures
        first_unbodied(files) == first_unbodied(files.take(m)),
    decreases files.len() - m,
{
    if m < files.len() {
        assert(files.take(m + 1).drop_last() =~= files.take(m));
        lemma_first_unbodied_prefix(files, m + 1);
    } else {
        assert(files.take(m) =~= files);
    }
}

/// The index of the first text that repeats one before it.
fn first_repeat_index(keys: &Vec<String>) -> (found: Option<usize>)
    ensures
        match found {
            Some(j) => j < keys@.len() && first_repeat(keys.deep_view()) == Some(keys@[j as int]@),
            None => first_repeat(keys.deep_view()) is None,
        },
{
    let ghost all = keys.deep_view();
    let mut j: usize = 0;
    while j < keys.len()
        invariant
            j <= keys@.len(),
            all == keys.deep_view(),
            first_repeat(all.take(j as int)) is None,
        decreases keys.len() - j,
    {
        assert(all.take(j + 1).drop_last() =~= all.take(j as int));
        assert(all.take(j + 1).last() == keys@[j as int]@);
        let mut k: usize = 0;
        while k < j
            invariant
                k <= j < keys@.len(),
                all == keys.deep_view(),
                all.take(j + 1).drop_last() == all.take(j as int),
                all.take(j + 1).last() == keys@[j as int]@,
                first_repeat(all.take(j as int)) is None,
                forall|x: int| 0 <= x < k ==> keys@[x]@ != keys@[j as int]@,
            decreases j - k,
        {
            if text_eq(keys[k].as_str(), keys[j].as_str()) {
                proof {
                    assert(all.take(j as int)[k as int] == keys@[j as int]@);
                    assert(all.take(j as int).contains(keys@[j as int]@));
                    assert(all.take(j + 1).drop_last().contains(all.take(j + 1).last()));
                    assert(first_repeat(all.take(j + 1).drop_last()) is None);
                    assert(first_repeat(all.take(j + 1)) == Some(keys@[j as int]@));
                    lemma_first_repeat_prefix(all, j + 1);
                }
                return Some(j);
            }
            k = k + 1;
        }
        assert(!all.take(j as int).contains(keys@[j as int]@)) by {
            if all.take(j as int).contains(keys@[j as int]@) {
                let x = choose|x: int| 0 <= x < j && all.take(j as int)[x] == keys@[j as int]@;
                assert(keys@[x]@ == keys@[j as int]@);
            }
        }
        j = j + 1;
    }
    assert(all.take(keys@.len() as int) =~= all);
    None
}

/// Copies of `texts`.
fn copy_texts(texts: &Vec<String>, into: &mut Vec<String>)
    ensures
        final(into).deep_view() == old(into).deep_view() + texts.deep_view(),
{
    let ghost start = into.deep_view();
    let mut i: usize = 0;
    while i < texts.len()
        invariant
            i <= texts@.len(),
            into.deep_view() == start + texts.deep_view().take(i as int),
        decreases texts.len() - i,
    {
        let ghost before = into.deep_view();
        let c = texts[i].clone();
        into.push(c);
        assert(into.deep_view() =~= before.push(texts@[i as int]@));
        assert(into.deep_view() =~= start + texts.deep_view().take(i + 1));
        i = i + 1;
    }
    assert(texts.deep_view().take(texts@.len() as int) =~= texts.deep_view());
}

/// The mapping at `path` judged before any source it names is read: every
/// key the gateway refuses, each once, labelled with the mapping; then a path
/// that a files or links entry projects twice; then an archive prefix spelled
/// twice; then a files entry setting both or neither of `contents` and
/// `source`. A mapping that passes all four comes back with its keys
/// normalized.
pub fn validate_mapping(path: &str, doc: Document) -> (plan: Result<MappingPlan, Error>)
    ensures
        mapping_refused(doc).len() > 0 ==> {
            &&& plan matches Err(Error::Refused(Refused::Containment { paths, origin, .. }))
            &&& paths.deep_view() == mapping_refused(doc)
            &&& origin@ == (OriginView::Mapping { path: path@ })
        },
        mapping_refused(doc).len() == 0 ==> match first_repeat(
            normalized_keys(doc.files@, false) + normalized_keys(doc.links@, false),
        ) {
            Some(k) => plan matches Err(Error::MappingDuplicate { path: p, key }) && p@ == path@
                && key@ == k,
            None => match first_repeat(normalized_keys(doc.archives@, true)) {
                Some(k) => plan matches Err(Error::MappingDuplicate { path: p, key }) && p@ == path@
                    && key@ == k,
                None => match first_unbodied(doc.files@) {
                    Some(k) => plan matches Err(Error::MappingContentsXorSource { path: p, key })
                        && p@ == path@ && key@ == k,
                    None => plan matches Ok(planned) && planned_from(planned, doc),
                },
            },
        },
{
    let mut refused: Vec<String> = Vec::new();
    assert(refused.deep_view() =~= Seq::<Seq<char>>::empty());
    let files = normalize_keys(&doc.files, false, &mut refused);
    let links = normalize_keys(&doc.links, false, &mut refused);
    let archives = normalize_keys(&doc.archives, true, &mut refused);
    proof {
        let r1 = refused_keys(doc.files@, false);
        let r2 = refused_keys(doc.links@, false);
        let r3 = refused_keys(doc.archives@, true);
        assert(Seq::<Seq<char>>::empty() + r1 =~= r1);
        lemma_dedup_absorbs(r1, r2);
        lemma_dedup_absorbs(r1 + r2, r3);
    }
    assert(files@.len() == doc.files@.len() && links@.len() == doc.links@.len()
        && archives@.len() == doc.archives@.len()) by {
        assert(files.deep_view().len() == files@.len());
        assert(links.deep_view().len() == links@.len());
        assert(archives.deep_view().len() == archives@.len());
    }
    if refused.len() > 0 {
        return Err(
            Error::Refused(
                Refused::Containment { paths: refused, below: Vec::new(), origin: Origin::Mapping { path: String::from_str(path) } },
            ),
        );
    }
    let mut projected: Vec<String> = Vec::new();
    assert(projected.deep_view() =~= Seq::<Seq<char>>::empty());
    copy_texts(&files, &mut projected);
    copy_texts(&links, &mut projected);
    assert(projected.deep_view() =~= normalized_keys(doc.files@, false) + normalized_keys(
        doc.links@,
        false,
    ));
    if let Some(j) = first_repeat_index(&projected) {
        return Err(Error::MappingDuplicate { path: String::from_str(path), key: projected[j].clone() });
    }
    if let Some(j) = first_repeat_index(&archives) {
        return Err(Error::MappingDuplicate { path: String::from_str(path), key: archives[j].clone() });
    }
    let mut planned_files: Vec<(String, Body, Option<bool>)> = Vec::new();
    let mut i: usize = 0;
    while i < doc.files.len()
        invariant
            i <= doc.files@.len(),
            files@.len() == doc.files@.len(),
            mapping_refused(doc).len() == 0,
            first_repeat(normalized_keys(doc.files@, false) + normalized_keys(doc.links@, false)) is None,
            first_repeat(normalized_keys(doc.archives@, true)) is None,
            files.deep_view() == normalized_keys(doc.files@, false),
            first_unbodied(doc.files@.take(i as int)) is None,
            planned_files@.len() == i,
            forall|k: int| 0 <= k < i ==> #[trigger] planned_file(planned_files@[k], doc.files@[k], files.deep_view()[k]),
        decreases doc.files.len() - i,
    {
        proof {
            assert(doc.files@.take(i + 1).drop_last() =~= doc.files@.take(i as int));
            assert(doc.files@.take(i + 1).last() == doc.files@[i as int]);
        }
        let table = &doc.files[i].1;
        let body = match (&table.contents, &table.source) {
            (Some(contents), None) => Body::Contents(contents.clone()),
            (None, Some(source)) => Body::Source(source.clone()),
            _ => {
                proof {
                    lemma_first_unbodied_prefix(doc.files@, i + 1);
                }
                return Err(
                    Error::MappingContentsXorSource { path: String::from_str(path), key: doc.files[i].0.clone() },
                );
            },
        };
        planned_files.push((files[i].clone(), body, table.executable));
        i = i + 1;
    }
    assert(doc.files@.take(doc.files@.len() as int) =~= doc.files@);
    let mut planned_links: Vec<(String, String)> = Vec::new();
    let mut i: usize = 0;
    while i < doc.links.len()
        invariant
            i <= doc.links@.len(),
            links@.len() == doc.links@.len(),
            links.deep_view() == normalized_keys(doc.links@, false),
            planned_links@.len() == i,
            forall|k: int|
                0 <= k < i ==> (#[trigger] planned_links@[k]).0@ == links.deep_view()[k]
                    && planned_links@[k].1@ == doc.links@[k].1.target@,
        decreases doc.links.len() - i,
    {
        planned_links.push((links[i].clone(), doc.links[i].1.target.clone()));
        i = i + 1;
    }
    let mut planned_archives: Vec<(String, String, u32)> = Vec::new();
    let mut i: usize = 0;
    while i < doc.archives.len()
        invariant
            i <= doc.archives@.len(),
            archives@.len() == doc.archives@.len(),
            archives.deep_view() == normalized_keys(doc.archives@, true),
            planned_archives@.len() == i,
            forall|k: int|
                0 <= k < i ==> (#[trigger] planned_archives@[k]).0@ == archives.deep_view()[k]
                    && planned_archives@[k].1@ == doc.archives@[k].1.source@
                    && planned_archives@[k].2 == match doc.archives@[k].1.strip {
                    Some(n) => n,
                    None => 0,
                },
        decreases doc.archives.len() - i,
    {
        let strip = match doc.archives[i].1.strip {
            Some(n) => n,
            None => 0,
        };
        planned_archives.push((archives[i].clone(), doc.archives[i].1.source.clone(), strip));
        i = i + 1;
    }
    Ok(MappingPlan { files: planned_files, links: planned_links, archives: planned_archives })
}

/// `planned` is the files entry `table` keyed by `normalized`.
pub open spec fn planned_file(
    planned: (String, Body, Option<bool>),
    table: (String, FileTable),
    normalized: Seq<char>,
) -> bool {
    &&& planned.0@ == normalized
    &&& planned.2 == table.1.executable
    &&& match table.1.contents {
        Some(c) => planned.1 matches Body::Contents(b) && b@ == c@,
        None => planned.1 matches Body::Source(src) && table.1.source matches Some(s) && src@ == s@,
    }
}

/// `plan` is `doc` with every key normalized, in the order `doc` lists them.
pub open spec fn planned_from(plan: MappingPlan, doc: Document) -> bool {
    &&& plan.files@.len() == doc.files@.len()
    &&& forall|k: int|
        0 <= k < plan.files@.len() ==> #[trigger] planned_file(
            plan.files@[k],
            doc.files@[k],
            normalized_keys(doc.files@, false)[k],
        )
    &&& plan.links@.len() == doc.links@.len()
    &&& forall|k: int|
        0 <= k < plan.links@.len() ==> (#[trigger] plan.links@[k]).0@ == normalized_keys(
            doc.links@,
            false,
        )[k] && plan.links@[k].1@ == doc.links@[k].1.target@
    &&& plan.archives@.len() == doc.archives@.len()
    &&& forall|k: int|
        0 <= k < plan.archives@.len() ==> (#[trigger] plan.archives@[k]).0@ == normalized_keys(
            doc.archives@,
            true,
        )[k] && plan.archives@[k].1@ == doc.archives@[k].1.source@ && plan.archives@[k].2
            == match doc.archives@[k].1.strip {
            Some(n) => n,
            None => 0,
        }
}


/// The entry a files table with inline `contents` projects: its UTF-8 bytes,
/// executable only where the table says so.
pub fn inline_entry(contents: &str, executable: Option<bool>) -> (entry: Entry)
    ensures
        entry@ == (EntryView::File {
            contents: vstd::utf8::encode_utf8(contents@),
            executable: match executable {
                Some(x) => x,
                None => false,
            },
        }),
{
    let bytes = vstd::slice::slice_to_vec(contents.as_bytes());
    Entry::File {
        contents: bytes,
        executable: match executable {
            Some(x) => x,
            None => false,
        },
    }
}

/// The desired tree a mapping's files and links tables project, each entry
/// labelled with the mapping at `path`.
pub fn mapping_tree(path: &str, files: Vec<(String, Entry)>, links: Vec<(String, String)>) -> (tree:
    Desired)
    ensures
        forall|p: Seq<char>|
            #[trigger] tree.lookup(p) == match last_link(links@, p) {
                Some(target) => Some((EntryView::Symlink { target }, OriginView::Mapping { path: path@ })),
                None => match crate::desired::last_at(files@, p) {
                    Some(e) => Some((e, OriginView::Mapping { path: path@ })),
                    None => None,
                },
            },
{
    let origin = Origin::Mapping { path: String::from_str(path) };
    let mut tree = Desired::from_source(files, origin.duplicate());
    let ghost all = links@;
    let mut i: usize = 0;
    while i < links.len()
        invariant
            i <= links@.len(),
            all == links@,
            origin@ == (OriginView::Mapping { path: path@ }),
            forall|p: Seq<char>|
                #[trigger] tree.lookup(p) == match last_link(all.take(i as int), p) {
                    Some(target) => Some((EntryView::Symlink { target }, origin@)),
                    None => match crate::desired::last_at(files@, p) {
                        Some(e) => Some((e, origin@)),
                        None => None,
                    },
                },
        decreases links.len() - i,
    {
        proof {
            assert(all.take(i + 1).drop_last() =~= all.take(i as int));
            assert(all.take(i + 1).last() == all[i as int]);
        }
        let key = links[i].0.clone();
        let target = links[i].1.clone();
        tree.insert(key, Entry::Symlink { target }, origin.duplicate());
        i = i + 1;
    }
    assert(all.take(links@.len() as int) =~= all);
    tree
}

/// The target the last link at path text `p` carries, if any link does.
pub open spec fn last_link(links: Seq<(String, String)>, p: Seq<char>) -> Option<Seq<char>>
    decreases links.len(),
{
    if links.len() == 0 {
        None
    } else if links.last().0@ == p {
        Some(links.last().1@)
    } else {
        last_link(links.drop_last(), p)
    }
}

/// Whether the `i`th key of `keys` lands where something already stands: in
/// `held`, or at an earlier key.
pub open spec fn collides(held: spec_fn(Seq<char>) -> bool, keys: Seq<Seq<char>>, i: int) -> bool {
    held(keys[i]) || keys.take(i).contains(keys[i])
}

/// Merges an archive's expansion into the mapping's tree, each member
/// labelled with the archive at `source` and the mapping at `mapping` that
/// named it. A member landing on a path the tree already holds refuses the
/// mapping.
pub fn merge_expansion(tree: &mut Desired, mapping: &str, source: &str, expanded: &Expanded) -> (merged:
    Result<(), Error>)
    ensures
        ({
            let keys = crate::archive::tree_keys(expanded.tree@);
            let held = |p: Seq<char>| old(tree).lookup(p) is Some;
            let origin = OriginView::Archive { path: source@, via: Some(mapping@) };
            &&& (forall|i: int| 0 <= i < keys.len() ==> !#[trigger] collides(held, keys, i)) ==> {
                &&& merged is Ok
                &&& forall|i: int|
                    0 <= i < keys.len() ==> #[trigger] final(tree).lookup(keys[i]) == Some(
                        (expanded.tree@[i].1@, origin),
                    )
                &&& forall|p: Seq<char>|
                    !keys.contains(p) ==> #[trigger] final(tree).lookup(p) == old(tree).lookup(p)
            }
            &&& merged is Err ==> exists|i: int|
                0 <= i < keys.len() && #[trigger] collides(held, keys, i) && (forall|j: int|
                    0 <= j < i ==> !collides(held, keys, j)) && (merged matches Err(
                    Error::MappingDuplicate { path, key },
                ) && path@ == mapping@ && key@ == keys[i])
            &&& merged is Err <==> exists|i: int| 0 <= i < keys.len() && #[trigger] collides(held, keys, i)
        }),
{
    let ghost keys = crate::archive::tree_keys(expanded.tree@);
    let ghost held = |p: Seq<char>| old(tree).lookup(p) is Some;
    let origin = Origin::Archive { path: String::from_str(source), via: Some(String::from_str(mapping)) };
    let mut i: usize = 0;
    while i < expanded.tree.len()
        invariant
            i <= expanded.tree@.len(),
            keys == crate::archive::tree_keys(expanded.tree@),
            held == (|p: Seq<char>| old(tree).lookup(p) is Some),
            origin@ == (OriginView::Archive { path: source@, via: Some(mapping@) }),
            forall|j: int| 0 <= j < i ==> !#[trigger] collides(held, keys, j),
            forall|j: int|
                0 <= j < i ==> #[trigger] tree.lookup(keys[j]) == Some((expanded.tree@[j].1@, origin@)),
            forall|p: Seq<char>|
                !keys.take(i as int).contains(p) ==> #[trigger] tree.lookup(p) == old(tree).lookup(p),
        decreases expanded.tree.len() - i,
    {
        let key = expanded.tree[i].0.clone();
        let entry = expanded.tree[i].1.duplicate();
        let ghost k = keys[i as int];
        assert(key@ == k);
        let ghost was = tree.lookup(k);
        proof {
            if keys.take(i as int).contains(k) {
                let j = choose|j: int| 0 <= j < i && keys.take(i as int)[j] == k;
                assert(keys[j] == k);
            }
        }
        let fresh = tree.insert(key, entry, origin.duplicate());
        if !fresh {
            proof {
                if !keys.take(i as int).contains(k) {
                    assert(old(tree).lookup(k) is Some);
                }
                assert(collides(held, keys, i as int));
            }
            return Err(Error::MappingDuplicate { path: String::from_str(mapping), key: expanded.tree[i].0.clone() });
        }
        proof {
            assert(!keys.take(i as int).contains(k)) by {
                if keys.take(i as int).contains(k) {
                    let j = choose|j: int| 0 <= j < i && keys.take(i as int)[j] == k;
                    assert(keys[j] == k);
                }
            }
            assert(!collides(held, keys, i as int));
            assert forall|p: Seq<char>| !keys.take(i + 1).contains(p) implies #[trigger] tree.lookup(p)
                == old(tree).lookup(p) by {
                assert(keys.take(i + 1)[i as int] == k);
                if keys.take(i as int).contains(p) {
                    let j = choose|j: int| 0 <= j < i && keys.take(i as int)[j] == p;
                    assert(keys.take(i + 1)[j] == p);
                }
            }
            assert forall|j: int| 0 <= j < i + 1 implies #[trigger] tree.lookup(keys[j]) == Some(
                (expanded.tree@[j].1@, origin@),
            ) by {
                if j < i {
                    assert(keys.take(i as int)[j] == keys[j]);
                    assert(keys[j] != k);
                }
            }
        }
        i = i + 1;
    }
    proof {
        assert(keys.take(keys.len() as int) =~= keys);
    }
    Ok(())
}

} // verus!
