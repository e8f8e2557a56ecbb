use vstd::prelude::*;

verus! {

/// Where a desired path came from, so a refusal can name the file to edit.
#[derive(Debug, Clone, PartialEq, Eq)]
pub enum Origin {
    /// The caller built the entry itself.
    Caller,
    /// A mapping file at this path.
    Mapping { path: String },
    /// An archive at `path`, loaded on its own or through the mapping `via`.
    Archive { path: String, via: Option<String> },
    /// A walked source tree rooted at this path.
    Tree { path: String },
    /// Files named on their own.
    Files,
}

/// The mathematical value of an [`Origin`].
pub enum OriginView {
    Caller,
    Mapping { path: Seq<char> },
    Archive { path: Seq<char>, via: Option<Seq<char>> },
    Tree { path: Seq<char> },
    Files,
}

impl View for Origin {
    type V = OriginView;

    open spec fn view(&self) -> OriginView {
        match self {
            Origin::Caller => OriginView::Caller,
            Origin::Mapping { path } => OriginView::Mapping { path: path@ },
            Origin::Archive { path, via } => OriginView::Archive {
                path: path@,
                via: match via {
                    Some(v) => Some(v@),
                    None => None,
                },
            },
            Origin::Tree { path } => OriginView::Tree { path: path@ },
            Origin::Files => OriginView::Files,
        }
    }
}

impl Origin {
    /// A copy of this origin.
    pub fn duplicate(&self) -> (copied: Origin)
        ensures
            copied@ == self@,
    {
        match self {
            Origin::Caller => Origin::Caller,
            Origin::Mapping { path } => Origin::Mapping { path: path.clone() },
            Origin::Archive { path, via } => Origin::Archive {
                path: path.clone(),
                via: match via {
                    Some(v) => Some(v.clone()),
                    None => None,
                },
            },
            Origin::Tree { path } => Origin::Tree { path: path.clone() },
            Origin::Files => Origin::Files,
        }
    }
}

/// What a block's marker, body or container may not be.
#[derive(Debug, Clone, Copy, PartialEq, Eq, PartialOrd, Ord)]
pub enum BlockFault {
    /// The marker is the empty string, which would match every line start.
    MarkerEmpty,
    /// The marker holds a `\n` or a `\r`.
    MarkerNotOneLine,
    /// The marker begins or ends with a space or a tab.
    MarkerEdgeWhitespace,
    /// A line of the body is the marker, so the region could not be read back.
    BodyCarriesMarker,
    /// A prepended body does not end with `\n`.
    BodyNotNewlineTerminated,
    /// No container stands at the path; a block never creates one.
    ContainerMissing,
    /// An appended region cannot follow an author's side that does not end
    /// with `\n`.
    ContainerNotNewlineTerminated,
    /// The author's side carries the marker on a whole line.
    MarkerInAuthorText,
    /// A path would cross between a region and a whole node.
    KindChange,
    /// A block signature names a region the manifest does not record there.
    SignatureNotRecorded,
}

/// Why the projection declines to touch one path.
#[derive(Debug, Clone, PartialEq, Eq)]
pub enum Refusal {
    /// The path, or a link it goes through, lands outside the destination.
    Containment { through: Option<String> },
    /// Several desired keys claim one location, or one lies beneath another.
    TreeConflict { paths: Vec<String> },
    /// Something the projection never wrote stands at the path.
    Foreign,
    /// What the projection wrote changed since.
    Drift,
    /// Other owners hold the path with a different entry.
    OwnerConflict { owners: Vec<String> },
    /// A symlink target resolves outside the destination.
    ExternalTarget { target: String },
    /// A symlink target that is not a pathname at all.
    InvalidTarget { target: String },
    /// A block breaks one of its rules.
    Block { fault: BlockFault },
    /// A directory stands where the entry goes, held up by these nodes (each
    /// with its recorded owners) or by directories whose names cannot be read.
    DirectoryInTheWay { holding: Vec<(String, Vec<String>)>, unreadable: Vec<String> },
}

/// Refused paths, grouped by what refused them. Each group names its paths
/// in the order the plan holds them.
#[derive(Debug, Clone, PartialEq, Eq)]
pub enum Refused {
    /// Paths that would leave the destination or enter its state, and for
    /// each that lies below a symlink, that link.
    Containment { paths: Vec<String>, below: Vec<(String, String)>, origin: Origin },
    TreeConflict { paths: Vec<String>, origin: Origin },
    Foreign { paths: Vec<String> },
    Drift { paths: Vec<String> },
    OwnerConflict { conflicts: Vec<(String, Vec<String>)> },
    ExternalTarget { links: Vec<(String, String)>, origin: Origin },
    InvalidTarget { links: Vec<(String, String)>, origin: Origin },
    Block { blocks: Vec<(String, BlockFault)> },
    /// Directories standing where entries go.
    DirectoryInTheWay { paths: Vec<String> },
}

} // verus!

verus! {

/// The mathematical value of a [`Refusal`].
pub enum RefusalView {
    Containment { through: Option<Seq<char>> },
    TreeConflict { paths: Seq<Seq<char>> },
    Foreign,
    Drift,
    OwnerConflict { owners: Seq<Seq<char>> },
    ExternalTarget { target: Seq<char> },
    InvalidTarget { target: Seq<char> },
    Block { fault: BlockFault },
    DirectoryInTheWay { holding: Seq<(Seq<char>, Seq<Seq<char>>)>, unreadable: Seq<Seq<char>> },
}

impl View for Refusal {
    type V = RefusalView;

    open spec fn view(&self) -> RefusalView {
        match self {
            Refusal::Containment { through } => RefusalView::Containment {
                through: match through {
                    Some(t) => Some(t@),
                    None => None,
                },
            },
            Refusal::TreeConflict { paths } => RefusalView::TreeConflict { paths: paths.deep_view() },
            Refusal::Foreign => RefusalView::Foreign,
            Refusal::Drift => RefusalView::Drift,
            Refusal::OwnerConflict { owners } => RefusalView::OwnerConflict {
                owners: owners.deep_view(),
            },
            Refusal::ExternalTarget { target } => RefusalView::ExternalTarget { target: target@ },
            Refusal::InvalidTarget { target } => RefusalView::InvalidTarget { target: target@ },
            Refusal::Block { fault } => RefusalView::Block { fault: *fault },
            Refusal::DirectoryInTheWay { holding, unreadable } => RefusalView::DirectoryInTheWay {
                holding: holding.deep_view(),
                unreadable: unreadable.deep_view(),
            },
        }
    }
}

} // verus!
