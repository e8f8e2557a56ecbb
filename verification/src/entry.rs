use vstd::prelude::*;

verus! {

/// Which end of the container a block region occupies.
#[derive(Debug, Clone, Copy, PartialEq, Eq, PartialOrd, Ord)]
pub enum Placement {
    /// The region is the container's first bytes.
    Prepend,
    /// The region is the container's last bytes.
    Append,
}

/// The kind of a projected path, as recorded in the manifest.
///
/// A [`Block`](EntryKind::Block) is a managed region at one end of a
/// container file the projection does not own whole. [`Placement::Append`]
/// lays the container out as `author ++ marker ++ b"\n" ++ body`,
/// [`Placement::Prepend`] as `body ++ marker ++ b"\n" ++ author`. A marker
/// occurrence is a whole line: anchored at a line start, matched byte-exact,
/// terminated by `\n`, `\r\n`, or the end of the container.
#[derive(Debug, Clone, PartialEq, Eq, PartialOrd, Ord)]
pub enum EntryKind {
    /// A regular file, written whole and hashed whole.
    File,
    /// A symbolic link; the target string is written verbatim.
    Symlink,
    /// A managed region at one end of a container file.
    Block {
        /// The line bounding the region on the inside, written verbatim and
        /// matched byte-exact.
        marker: String,
        placement: Placement,
    },
}

/// The mathematical value of an [`EntryKind`]: a marker is its text.
pub enum KindView {
    File,
    Symlink,
    Block { marker: Seq<char>, placement: Placement },
}

impl View for EntryKind {
    type V = KindView;

    open spec fn view(&self) -> KindView {
        match self {
            EntryKind::File => KindView::File,
            EntryKind::Symlink => KindView::Symlink,
            EntryKind::Block { marker, placement } => KindView::Block {
                marker: marker@,
                placement: *placement,
            },
        }
    }
}

impl EntryKind {
    pub open spec fn spec_is_block(&self) -> bool {
        self is Block
    }

    /// Whether this kind is a block.
    #[verifier::when_used_as_spec(spec_is_block)]
    pub fn is_block(&self) -> (b: bool)
        ensures
            b == self is Block,
    {
        match self {
            EntryKind::Block { .. } => true,
            _ => false,
        }
    }

    /// A copy of this kind, marker text included.
    pub fn duplicate(&self) -> (r: EntryKind)
        ensures
            r@ == self@,
    {
        match self {
            EntryKind::File => EntryKind::File,
            EntryKind::Symlink => EntryKind::Symlink,
            EntryKind::Block { marker, placement } => EntryKind::Block {
                marker: marker.clone(),
                placement: *placement,
            },
        }
    }

    /// Whether `self` and `other` are the same kind: the same variant, and
    /// for blocks the same marker text and the same placement.
    pub fn same_as(&self, other: &EntryKind) -> (b: bool)
        ensures
            b == (self@ == other@),
    {
        match (self, other) {
            (EntryKind::File, EntryKind::File) => true,
            (EntryKind::Symlink, EntryKind::Symlink) => true,
            (
                EntryKind::Block { marker: m1, placement: p1 },
                EntryKind::Block { marker: m2, placement: p2 },
            ) => {
                let same_placement = match (p1, p2) {
                    (Placement::Append, Placement::Append) => true,
                    (Placement::Prepend, Placement::Prepend) => true,
                    _ => false,
                };
                same_placement && m1.eq(m2)
            },
            _ => false,
        }
    }
}

/// One node of the desired tree, keyed by its relative path.
#[derive(Debug, Clone, PartialEq, Eq)]
pub enum Entry {
    /// A regular file with the given contents.
    File { contents: Vec<u8>, executable: bool },
    /// A symbolic link, whose target string reaches disk verbatim.
    Symlink { target: String },
    /// A managed region at one end of a container the projection does not own
    /// whole. No line of `body` may equal `marker`.
    Block { body: Vec<u8>, marker: String, placement: Placement },
}

/// The mathematical value of an [`Entry`]: bytes as sequences, strings as
/// their text.
pub enum EntryView {
    File { contents: Seq<u8>, executable: bool },
    Symlink { target: Seq<char> },
    Block { body: Seq<u8>, marker: Seq<char>, placement: Placement },
}

impl EntryView {
    /// The kind an entry of this value is recorded as.
    pub open spec fn kind(self) -> KindView {
        match self {
            EntryView::File { .. } => KindView::File,
            EntryView::Symlink { .. } => KindView::Symlink,
            EntryView::Block { marker, placement, .. } => KindView::Block { marker, placement },
        }
    }
}

impl View for Entry {
    type V = EntryView;

    open spec fn view(&self) -> EntryView {
        match self {
            Entry::File { contents, executable } => EntryView::File {
                contents: contents@,
                executable: *executable,
            },
            Entry::Symlink { target } => EntryView::Symlink { target: target@ },
            Entry::Block { body, marker, placement } => EntryView::Block {
                body: body@,
                marker: marker@,
                placement: *placement,
            },
        }
    }
}

impl Entry {

    /// The [`EntryKind`] this entry is recorded as in the manifest.
    pub fn kind(&self) -> (k: EntryKind)
        ensures
            k@ == self@.kind(),
    {
        match self {
            Entry::File { .. } => EntryKind::File,
            Entry::Symlink { .. } => EntryKind::Symlink,
            Entry::Block { marker, placement, .. } => EntryKind::Block {
                marker: marker.clone(),
                placement: *placement,
            },
        }
    }

    /// A copy of this entry, every byte included.
    pub fn duplicate(&self) -> (r: Entry)
        ensures
            r@ == self@,
    {
        match self {
            Entry::File { contents, executable } => {
                let copied = contents.clone();
                assert(copied@ =~= contents@);
                Entry::File { contents: copied, executable: *executable }
            },
            Entry::Symlink { target } => Entry::Symlink { target: target.clone() },
            Entry::Block { body, marker, placement } => {
                let copied = body.clone();
                assert(copied@ =~= body@);
                Entry::Block { body: copied, marker: marker.clone(), placement: *placement }
            },
        }
    }
}

} // verus!
