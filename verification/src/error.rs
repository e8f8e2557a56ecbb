use vstd::prelude::*;

use crate::archive::ArchiveFormat;
use crate::refusal::Refused;

verus! {

/// How deep below its root a directory walk descends, counted in directories.
/// A bind mount can make a directory its own ancestor, a tree with no bottom
/// that no symlink check sees, so every walk stops here.
pub const MAX_WALK_DEPTH: usize = 64;

/// What a path was to the run that met an OS error on it: the word an
/// [`Error::Io`] message opens with, so a reader knows which argument to fix.
#[derive(Debug, Clone, Copy, PartialEq, Eq, Structural)]
pub enum IoRole {
    Destination,
    StateDirectory,
    Mapping,
    SourceTree,
    Archive,
    /// A file read as the body of an entry: one a mapping's `source` names,
    /// or one whose kind is not known until it is read.
    Source,
    /// A file named on its own, projected under its basename.
    NamedFile,
    /// The run's own working paths; the message names no role for these.
    Unstated,
}

/// Everything the engine's rules can fail with. [`Error::Refused`] is the
/// projection declining to touch paths; every other variant is an operation
/// failing. Failures of the host itself (a read, a parse) are raised where the
/// host is touched and never reach these rules.
#[derive(Debug)]
#[allow(inconsistent_fields)]
pub enum Error {
    Refused(Refused),
    /// An OS error met on a path playing `role`.
    Io { role: IoRole, path: String, source: std::io::Error },
    /// A manifest declaring a format this crate does not read.
    ManifestVersion { path: String, found: u32, supported: u32 },
    /// A plan writes a path past the depth the destination walk descends.
    DestinationTooDeep { path: String, limit: usize },
    MappingVersion { path: String, found: u32, supported: u32 },
    /// A mapping's files entry sets both or neither of `contents` and `source`.
    MappingContentsXorSource { path: String, key: String },
    /// More than one mapping entry projects the same path.
    MappingDuplicate { path: String, key: String },
    /// A member of a kind the projection never writes.
    ArchiveMemberKind { path: String, member: String },
    /// An archive whose name carries none of the recognized extensions.
    ArchiveFormatUnknown { path: String },
    /// An archive whose bytes do not decode as the format its name spells.
    ArchiveDecode { path: String, format: ArchiveFormat, source: std::io::Error },
    /// A member name that is not UTF-8, spelled lossily.
    ArchiveMemberNameNotUtf8 { path: String, name: String },
    /// A member's symlink target that is not UTF-8, spelled lossily.
    ArchiveMemberTargetNotUtf8 { path: String, member: String, target: String },
    /// A zip member's trailing `/` and its Unix mode disagree about its kind.
    ArchiveMemberKindDisagrees { path: String, member: String },
    ArchiveMemberDuplicate { path: String, member: String },
    /// `strip` dropped members and left nothing to project.
    ArchiveFullyStripped { path: String, strip: u32, dropped: usize },
    ArchiveMemberTooDeep { path: String, member: String, limit: usize },
    ArchiveTooLarge { path: String, limit: u64 },
    /// A zip's file on disk is larger than what is left of the budget.
    ArchiveFileTooLarge { path: String, size: u64, remaining: u64, limit: u64 },
    ArchiveTooManyMembers { path: String, limit: usize },
    SourceTooLarge { path: String, limit: u64 },
    /// More than one named path projects under one file name.
    FilesDuplicate { first: String, second: String },
    /// A named path with no file name to project it under.
    FilesNodeKind { path: String },
    /// An owner name that names nobody: empty, or whitespace alone.
    OwnerNotNamed { owner: String },
}

impl Error {
    /// Whether this error is a refusal — the projection declining to touch a
    /// path — rather than an operation failing.
    pub fn is_refusal(&self) -> (refusal: bool)
        ensures
            refusal == (self is Refused),
    {
        match self {
            Error::Refused(_) => true,
            _ => false,
        }
    }
}

/// The exit code a command-line front end answers a result with: 0 for
/// success, 2 for a refusal, 1 for every other failure.
pub fn exit_code(result: &Result<(), Error>) -> (code: i32)
    ensures
        code == match result {
            Ok(()) => 0i32,
            Err(Error::Refused(_)) => 2i32,
            Err(_) => 1i32,
        },
{
    match result {
        Ok(()) => 0,
        Err(error) => if error.is_refusal() {
            2
        } else {
            1
        },
    }
}

} // verus!
