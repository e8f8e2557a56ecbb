//! The text a refusal prints: what refused the paths, each path named with
//! what it lies below or where it came from.

use vstd::prelude::*;

use vstd::string::{StrSliceExecFns, StringExecFns};

use crate::refusal::{BlockFault, Origin, OriginView, Refused};

verus! {

/// `parts` joined with `", "` between each two.
pub open spec fn joined(parts: Seq<Seq<char>>) -> Seq<char>
    decreases parts.len(),
{
    if parts.len() == 0 {
        Seq::empty()
    } else if parts.len() == 1 {
        parts[0]
    } else {
        joined(parts.drop_last()) + seq![',', ' '] + parts.last()
    }
}

/// The texts of `parts` joined with `", "` between each two.
pub fn join_listed(parts: &Vec<String>) -> (text: String)
    ensures
        text@ == joined(parts.deep_view()),
{
    let mut text = String::new();
    let mut i: usize = 0;
    while i < parts.len()
        invariant
            i <= parts@.len(),
            text@ == joined(parts.deep_view().take(i as int)),
        decreases parts.len() - i,
    {
        let ghost before = text@;
        if i > 0 {
            text.append(", ");
            proof {
                reveal_strlit(", ");
            }
        }
        text.append(parts[i].as_str());
        proof {
            let taken = parts.deep_view().take(i as int + 1);
            assert(taken.drop_last() =~= parts.deep_view().take(i as int));
            assert(taken.last() == parts@[i as int]@);
            if i == 0 {
                assert(text@ =~= taken[0]);
            } else {
                assert(text@ =~= before + seq![',', ' '] + parts@[i as int]@);
            }
        }
        i = i + 1;
    }
    assert(parts.deep_view().take(i as int) =~= parts.deep_view());
    text
}

/// The note naming where a refused path came from: nothing for the caller's
/// own entries.
pub open spec fn origin_note(origin: OriginView) -> Seq<char> {
    match origin {
        OriginView::Caller => Seq::empty(),
        OriginView::Mapping { path } => " (from mapping "@ + path + ")"@,
        OriginView::Archive { path, via: None } => " (from archive "@ + path + ")"@,
        OriginView::Archive { path, via: Some(via) } => " (from archive "@ + path + " named by mapping "@ + via
            + ")"@,
        OriginView::Tree { path } => " (from tree "@ + path + ")"@,
        OriginView::Files => " (from individually named files)"@,
    }
}

/// The note naming where a refused path came from.
pub fn origin_text(origin: &Origin) -> (note: String)
    ensures
        note@ == origin_note(origin@),
{
    match origin {
        Origin::Caller => String::new(),
        Origin::Mapping { path } => {
            let mut note = String::from_str(" (from mapping ");
            note.append(path.as_str());
            note.append(")");
            note
        },
        Origin::Archive { path, via: None } => {
            let mut note = String::from_str(" (from archive ");
            note.append(path.as_str());
            note.append(")");
            note
        },
        Origin::Archive { path, via: Some(via) } => {
            let mut note = String::from_str(" (from archive ");
            note.append(path.as_str());
            note.append(" named by mapping ");
            note.append(via.as_str());
            note.append(")");
            note
        },
        Origin::Tree { path } => {
            let mut note = String::from_str(" (from tree ");
            note.append(path.as_str());
            note.append(")");
            note
        },
        Origin::Files => String::from_str(" (from individually named files)"),
    }
}

/// The link a containment refusal names `path` below: the first listed.
pub open spec fn link_below(below: Seq<(Seq<char>, Seq<char>)>, path: Seq<char>) -> Option<Seq<char>>
    decreases below.len(),
{
    if below.len() == 0 {
        None
    } else if below[0].0 == path {
        Some(below[0].1)
    } else {
        link_below(below.drop_first(), path)
    }
}

/// How a containment refusal names one path: with the symlink it lies
/// below, or else with where it came from.
pub open spec fn containment_item(
    path: Seq<char>,
    below: Seq<(Seq<char>, Seq<char>)>,
    origin: OriginView,
) -> Seq<char> {
    match link_below(below, path) {
        Some(link) => path + " (below the symlink "@ + link + ")"@,
        None => path + origin_note(origin),
    }
}

/// The first link `below` lists for `path`.
fn find_below(below: &Vec<(String, String)>, path: &str) -> (link: Option<String>)
    ensures
        match link {
            Some(l) => link_below(below.deep_view(), path@) == Some(l@),
            None => link_below(below.deep_view(), path@) is None,
        },
{
    let mut i: usize = 0;
    assert(below.deep_view().skip(0) =~= below.deep_view());
    while i < below.len()
        invariant
            i <= below@.len(),
            link_below(below.deep_view(), path@) == link_below(below.deep_view().skip(i as int), path@),
        decreases below.len() - i,
    {
        let ghost rest = below.deep_view().skip(i as int);
        assert(rest[0] == (below@[i as int].0@, below@[i as int].1@));
        if crate::text::text_eq(below[i].0.as_str(), path) {
            return Some(below[i].1.clone());
        }
        assert(rest.drop_first() =~= below.deep_view().skip(i as int + 1));
        i = i + 1;
    }
    None
}

/// The name a block fault prints by.
pub open spec fn fault_name(fault: BlockFault) -> Seq<char> {
    match fault {
        BlockFault::MarkerEmpty => "MarkerEmpty"@,
        BlockFault::MarkerNotOneLine => "MarkerNotOneLine"@,
        BlockFault::MarkerEdgeWhitespace => "MarkerEdgeWhitespace"@,
        BlockFault::BodyCarriesMarker => "BodyCarriesMarker"@,
        BlockFault::BodyNotNewlineTerminated => "BodyNotNewlineTerminated"@,
        BlockFault::ContainerMissing => "ContainerMissing"@,
        BlockFault::ContainerNotNewlineTerminated => "ContainerNotNewlineTerminated"@,
        BlockFault::MarkerInAuthorText => "MarkerInAuthorText"@,
        BlockFault::KindChange => "KindChange"@,
        BlockFault::SignatureNotRecorded => "SignatureNotRecorded"@,
    }
}

/// The name a block fault prints by.
pub fn fault_text(fault: BlockFault) -> (name: String)
    ensures
        name@ == fault_name(fault),
{
    match fault {
        BlockFault::MarkerEmpty => String::from_str("MarkerEmpty"),
        BlockFault::MarkerNotOneLine => String::from_str("MarkerNotOneLine"),
        BlockFault::MarkerEdgeWhitespace => String::from_str("MarkerEdgeWhitespace"),
        BlockFault::BodyCarriesMarker => String::from_str("BodyCarriesMarker"),
        BlockFault::BodyNotNewlineTerminated => String::from_str("BodyNotNewlineTerminated"),
        BlockFault::ContainerMissing => String::from_str("ContainerMissing"),
        BlockFault::ContainerNotNewlineTerminated => String::from_str("ContainerNotNewlineTerminated"),
        BlockFault::MarkerInAuthorText => String::from_str("MarkerInAuthorText"),
        BlockFault::KindChange => String::from_str("KindChange"),
        BlockFault::SignatureNotRecorded => String::from_str("SignatureNotRecorded"),
    }
}

/// `text` quoted and escaped as Rust's `Debug` prints a string.
pub uninterp spec fn debug_quoted(text: Seq<char>) -> Seq<char>;

/// std's `Debug` formatting of a string: the text in double quotes, with
/// quotes, backslashes and control characters escaped. What it prints
/// depends on the text alone.
#[verifier::external_body]
fn quoted(text: &str) -> (shown: String)
    ensures
        shown@ == debug_quoted(text@),
{
    format!("{:?}", text)
}

/// The item texts a refusal lists, one per path it names.
pub open spec fn listed_items(refused: Refused) -> Seq<Seq<char>> {
    match refused {
        Refused::Containment { paths, below, origin } => Seq::new(
            paths@.len(),
            |i: int| containment_item(paths@[i]@, below.deep_view(), origin@),
        ),
        Refused::TreeConflict { paths, .. } => paths.deep_view(),
        Refused::Foreign { paths } => paths.deep_view(),
        Refused::Drift { paths } => paths.deep_view(),
        Refused::OwnerConflict { conflicts } => Seq::new(
            conflicts@.len(),
            |i: int| conflicts@[i].0@ + " (held by "@ + joined(conflicts@[i].1.deep_view()) + ")"@,
        ),
        Refused::ExternalTarget { links, origin } => Seq::new(
            links@.len(),
            |i: int| links@[i].0@ + " -> "@ + links@[i].1@ + origin_note(origin@),
        ),
        Refused::InvalidTarget { links, origin } => Seq::new(
            links@.len(),
            |i: int| links@[i].0@ + " -> "@ + debug_quoted(links@[i].1@) + origin_note(origin@),
        ),
        Refused::Block { blocks } => Seq::new(
            blocks@.len(),
            |i: int| blocks@[i].0@ + " ("@ + fault_name(blocks@[i].1) + ")"@,
        ),
        Refused::DirectoryInTheWay { paths } => paths.deep_view(),
    }
}

/// The message a refusal prints.
pub open spec fn refused_text(refused: Refused) -> Seq<char> {
    let items = joined(listed_items(refused));
    match refused {
        Refused::Containment { .. } => "refusing paths that violate containment: "@ + items,
        Refused::TreeConflict { origin, .. } => "refusing paths that conflict in the desired tree, one location claimed twice or one beneath another: "@
            + items + origin_note(origin@),
        Refused::Foreign { .. } => "refusing to touch foreign paths (not written by this projection): "@
            + items
            + "; no flag overrides this: remove the paths by hand to let the projection write them \u{2014} for a block, the marker region rather than the container holding it"@,
        Refused::Drift { .. } => "refusing to touch drifted paths (edited on disk): "@ + items
            + "; pass --force to touch them anyway, where the projection can still tell what it would replace"@,
        Refused::OwnerConflict { .. } => "refusing paths other owners hold: "@ + items,
        Refused::ExternalTarget { .. } => "refusing symlinks with targets outside the destination: "@ + items
            + "; pass --allow-external-targets to write them"@,
        Refused::InvalidTarget { .. } => "refusing symlinks whose targets are not pathnames: "@ + items,
        Refused::Block { .. } => "refusing blocks that break the region rules: "@ + items,
        Refused::DirectoryInTheWay { .. } => "refusing paths where a directory holds what the projection may not remove: "@
            + items,
    }
}

/// The item texts a refusal lists.
fn items_of(refused: &Refused) -> (items: Vec<String>)
    ensures
        items.deep_view() == listed_items(*refused),
{
    let mut items: Vec<String> = Vec::new();
    match refused {
        Refused::Containment { paths, below, origin } => {
            let mut i: usize = 0;
            while i < paths.len()
                invariant
                    i <= paths@.len(),
                    items.deep_view() =~= Seq::new(
                        i as nat,
                        |k: int| containment_item(paths@[k]@, below.deep_view(), origin@),
                    ),
                decreases paths.len() - i,
            {
                let path = paths[i].as_str();
                let mut item = String::from_str(path);
                match find_below(below, path) {
                    Some(link) => {
                        item.append(" (below the symlink ");
                        item.append(link.as_str());
                        item.append(")");
                    },
                    None => {
                        let note = origin_text(origin);
                        item.append(note.as_str());
                    },
                }
                let ghost prev = items.deep_view();
                let ghost shown = item@;
                items.push(item);
                assert(items.deep_view() =~= prev.push(shown));
                i = i + 1;
            }
        },
        Refused::TreeConflict { paths, .. } | Refused::Foreign { paths } | Refused::Drift { paths }
        | Refused::DirectoryInTheWay { paths } => {
            items = crate::manifest::copy_strings(paths);
        },
        Refused::OwnerConflict { conflicts } => {
            let mut i: usize = 0;
            while i < conflicts.len()
                invariant
                    i <= conflicts@.len(),
                    items.deep_view() =~= Seq::new(
                        i as nat,
                        |k: int| conflicts@[k].0@ + " (held by "@ + joined(conflicts@[k].1.deep_view()) + ")"@,
                    ),
                decreases conflicts.len() - i,
            {
                let mut item = String::from_str(conflicts[i].0.as_str());
                item.append(" (held by ");
                let owners = join_listed(&conflicts[i].1);
                item.append(owners.as_str());
                item.append(")");
                let ghost prev = items.deep_view();
                let ghost shown = item@;
                items.push(item);
                assert(items.deep_view() =~= prev.push(shown));
                i = i + 1;
            }
        },
        Refused::ExternalTarget { links, origin } => {
            let note = origin_text(origin);
            let mut i: usize = 0;
            while i < links.len()
                invariant
                    i <= links@.len(),
                    note@ == origin_note(origin@),
                    items.deep_view() =~= Seq::new(
                        i as nat,
                        |k: int| links@[k].0@ + " -> "@ + links@[k].1@ + origin_note(origin@),
                    ),
                decreases links.len() - i,
            {
                let mut item = String::from_str(links[i].0.as_str());
                item.append(" -> ");
                item.append(links[i].1.as_str());
                item.append(note.as_str());
                let ghost prev = items.deep_view();
                let ghost shown = item@;
                items.push(item);
                assert(items.deep_view() =~= prev.push(shown));
                i = i + 1;
            }
        },
        Refused::InvalidTarget { links, origin } => {
            let note = origin_text(origin);
            let mut i: usize = 0;
            while i < links.len()
                invariant
                    i <= links@.len(),
                    note@ == origin_note(origin@),
                    items.deep_view() =~= Seq::new(
                        i as nat,
                        |k: int| links@[k].0@ + " -> "@ + debug_quoted(links@[k].1@) + origin_note(origin@),
                    ),
                decreases links.len() - i,
            {
                let mut item = String::from_str(links[i].0.as_str());
                item.append(" -> ");
                let shown = quoted(links[i].1.as_str());
                item.append(shown.as_str());
                item.append(note.as_str());
                let ghost prev = items.deep_view();
                let ghost shown = item@;
                items.push(item);
                assert(items.deep_view() =~= prev.push(shown));
                i = i + 1;
            }
        },
        Refused::Block { blocks } => {
            let mut i: usize = 0;
            while i < blocks.len()
                invariant
                    i <= blocks@.len(),
                    items.deep_view() =~= Seq::new(
                        i as nat,
                        |k: int| blocks@[k].0@ + " ("@ + fault_name(blocks@[k].1) + ")"@,
                    ),
                decreases blocks.len() - i,
            {
                let mut item = String::from_str(blocks[i].0.as_str());
                item.append(" (");
                let name = fault_text(blocks[i].1);
                item.append(name.as_str());
                item.append(")");
                let ghost prev = items.deep_view();
                let ghost shown = item@;
                items.push(item);
                assert(items.deep_view() =~= prev.push(shown));
                i = i + 1;
            }
        },
    }
    items
}

impl Refused {
    /// The message this refusal prints: what refused the paths, then each
    /// path, with what it lies below or where it came from.
    pub fn message(&self) -> (text: String)
        ensures
            text@ == refused_text(*self),
    {
        let items = items_of(self);
        let listed = join_listed(&items);
        match self {
            Refused::Containment { .. } => {
                let mut text = String::from_str("refusing paths that violate containment: ");
                text.append(listed.as_str());
                text
            },
            Refused::TreeConflict { origin, .. } => {
                let mut text = String::from_str(
                    "refusing paths that conflict in the desired tree, one location claimed twice or one beneath another: ",
                );
                text.append(listed.as_str());
                let note = origin_text(origin);
                text.append(note.as_str());
                text
            },
            Refused::Foreign { .. } => {
                let mut text = String::from_str(
                    "refusing to touch foreign paths (not written by this projection): ",
                );
                text.append(listed.as_str());
                text.append(
                    "; no flag overrides this: remove the paths by hand to let the projection write them \u{2014} for a block, the marker region rather than the container holding it",
                );
                text
            },
            Refused::Drift { .. } => {
                let mut text = String::from_str("refusing to touch drifted paths (edited on disk): ");
                text.append(listed.as_str());
                text.append(
                    "; pass --force to touch them anyway, where the projection can still tell what it would replace",
                );
                text
            },
            Refused::OwnerConflict { .. } => {
                let mut text = String::from_str("refusing paths other owners hold: ");
                text.append(listed.as_str());
                text
            },
            Refused::ExternalTarget { .. } => {
                let mut text = String::from_str(
                    "refusing symlinks with targets outside the destination: ",
                );
                text.append(listed.as_str());
                text.append("; pass --allow-external-targets to write them");
                text
            },
            Refused::InvalidTarget { .. } => {
                let mut text = String::from_str(
                    "refusing symlinks whose targets are not pathnames: ",
                );
                text.append(listed.as_str());
                text
            },
            Refused::Block { .. } => {
                let mut text = String::from_str("refusing blocks that break the region rules: ");
                text.append(listed.as_str());
                text
            },
            Refused::DirectoryInTheWay { .. } => {
                let mut text = String::from_str(
                    "refusing paths where a directory holds what the projection may not remove: ",
                );
                text.append(listed.as_str());
                text
            },
        }
    }
}

} // verus!
