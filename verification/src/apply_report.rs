//! What an apply run reports: one outcome per path, and, for a run that could
//! not finish, why it stopped and how far it got.

use vstd::prelude::*;

use crate::archive::Dropped;
use crate::error::Error;
use crate::manifest::Manifest;

verus! {

/// What apply did to one path.
#[derive(Debug, Clone, Copy, PartialEq, Eq, Structural, PartialOrd, Ord)]
pub enum ApplyOutcome {
    /// The path did not exist and was created; for a block entry, the region
    /// did not exist.
    Written,
    /// The path existed and was replaced.
    Overwritten,
    /// Disk already matched desired; nothing was written. A planned write
    /// reports this too where it found the region already carrying the
    /// desired body and adopted it.
    Skipped,
    /// The orphaned path was removed.
    Removed,
    /// The record was dropped and nothing was unlinked: the path was already
    /// gone when the plan was decided.
    Forgot,
    /// This owner was dropped from the path's manifest entry; other owners
    /// still hold the path, so the disk was not touched.
    Released,
    /// The removal named the path and this owner did not hold it; no record
    /// changed and the disk was not touched.
    NotRecorded,
}

/// One row per path, in the order the run met them.
#[derive(Debug)]
pub struct Report<T> {
    pub rows: Vec<(String, T)>,
}

impl<T> Report<T> {
    /// Whether the report holds no row.
    pub fn is_empty(&self) -> (empty: bool)
        ensures
            empty == (self.rows@.len() == 0),
    {
        self.rows.len() == 0
    }
}

/// What an apply run did: one outcome per path, the archive members `strip`
/// erased on the way to the desired tree, and the manifest the run decided
/// on.
#[derive(Debug)]
pub struct ApplyReport {
    pub report: Report<ApplyOutcome>,
    pub dropped: Vec<Dropped>,
    pub manifest: Manifest,
}

/// Why an apply could not finish, and whether the state directory came out of
/// it recording what the destination holds. A run writes the destination
/// action by action and records the whole lot in one manifest at the end, so
/// the two can fail independently, and both failures are kept.
#[derive(Debug)]
pub enum Stopped {
    /// An action refused or failed, so the actions after it never ran. The
    /// state directory records the rows that did apply.
    Applying(Error),
    /// An action refused or failed, and writing the manifest that records the
    /// rows before it failed as well.
    ApplyingAndRecording {
        /// What stopped the run.
        applying: Error,
        /// What stopped the record.
        recording: Error,
    },
    /// Every action applied and writing the manifest that records them
    /// failed, leaving the destination whole and unrecorded.
    Recording(Error),
}

impl Stopped {
    /// What stopped the run: the action that refused or failed, and, where
    /// every action applied, the failure to record them.
    pub fn error(&self) -> (error: &Error)
        ensures
            match self {
                Stopped::Applying(e) => error == e,
                Stopped::ApplyingAndRecording { applying, .. } => error == applying,
                Stopped::Recording(e) => error == e,
            },
    {
        match self {
            Stopped::Applying(error) => error,
            Stopped::Recording(error) => error,
            Stopped::ApplyingAndRecording { applying, .. } => applying,
        }
    }

    /// What stopped the manifest reaching the state directory, where writing
    /// it failed.
    pub fn recording(&self) -> (recording: Option<&Error>)
        ensures
            match self {
                Stopped::Applying(_) => recording is None,
                Stopped::ApplyingAndRecording { recording: r, .. } => recording == Some(r),
                Stopped::Recording(e) => recording == Some(e),
            },
    {
        match self {
            Stopped::Applying(_) => None,
            Stopped::ApplyingAndRecording { recording, .. } => Some(recording),
            Stopped::Recording(error) => Some(error),
        }
    }

    /// Whether the state directory records what the run applied.
    pub fn recorded(&self) -> (recorded: bool)
        ensures
            recorded == (self is Applying),
    {
        match self {
            Stopped::Applying(_) => true,
            _ => false,
        }
    }
}

/// An apply that could not finish: why it stopped, and what it had applied
/// when it did. The rows are empty where the run stopped before touching
/// anything.
#[derive(Debug)]
pub struct Aborted {
    pub stopped: Stopped,
    pub applied: ApplyReport,
}

impl Aborted {
    /// Whether the run touched the destination before it stopped.
    pub fn applied_anything(&self) -> (touched: bool)
        ensures
            touched == (self.applied.report.rows@.len() > 0),
    {
        !self.applied.report.is_empty()
    }
}

} // verus!
