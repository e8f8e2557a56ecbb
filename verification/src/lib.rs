//! File projection: map a computed tree of paths and contents onto a target
//! directory, record what was written in a manifest, and classify every path
//! before touching it.
//!
//! This crate holds the projection's rules as verified code: the region
//! mechanics of a block entry, the lexical containment gateway, the per-path
//! classification and action table, the whole-plan check apply runs before
//! touching anything, the manifest bookkeeping of each action, the walk to
//! an action's parent, the member rules of an archive expansion, and the
//! checks a mapping file passes before any source it names is read.

mod act;
mod apply_report;
mod archive;
mod block;
mod claims;
mod containment;
mod decide;
mod desired;
mod entry;
mod error;
mod files;
mod grading;
mod hash;
mod laws;
mod limits;
mod manifest;
mod mapping;
mod members;
mod message;
mod refusal;
mod snapshot;
mod stream;
mod text;
mod walk;

pub use act::{
    at_action_key, block_fault_refusal, bytes_eq, check_leaf, check_plan_keys, check_region, entry_block_fault,
    file_mode, link_may_publish, occupied_refusal, overwrite_block, phase, record, record_skip,
    release, removal_ancestors, removal_outcome, remove_block, schedule, settle_action, settling_stalled,
    signature_block_fault, validate, write_block, BlockWrite, Leaf, Phase, Plan, Schedule,
};
pub use apply_report::{Aborted, ApplyOutcome, ApplyReport, Report, Stopped};
pub use archive::{
    format_for_file_name, is_executable, window_log_max, ArchiveFormat, Dropped, Expanded,
    Expansion, Placing, TarKind, MAX_MEMBERS, MAX_MEMBER_DEPTH, S_IFDIR, S_IFLNK, S_IFMT, S_IFREG,
};
pub use claims::{
    check_depth, contending_keys, finish_removal, judge_scope, key_fates, origins_of, orphan_verdict, removal_scope, Fate,
    OrphanVerdict, RemovalScope,
};
pub use block::{
    block_kind, entry_fault, locate, newline_terminated, occurrence_count, splice, strip, Region,
};
pub use containment::{
    absolutize_from, chars_of, contained_join, contained_normalize, contained_target, is_pathname, join_path,
    join_texts, parent_components, path_components_of, path_starts_with, split_target,
    starts_with_drive, to_ascii_lower, ChainStep, ChainWalk, Hop,
};
pub use decide::{
    block_refusal, clean_overwrite_reason, desired_action, desired_executable, desired_hash,
    desired_matches_recorded, desired_signature, identified_region, lift_or_refuse_drift,
    observation_matches_desired, observation_matches_recorded, observed_signature, orphan_action,
    other_owners, recorded_signature, recorded_state, refuse, skip, Action, ActionView,
    DesiredRegion, DriftPolicy, ExternalTargetPolicy, NodeSignature, Observation,
    OverwriteReason, PathState, PlanOptions, SignatureView,
};
pub use desired::Desired;
pub use entry::{Entry, EntryKind, EntryView, KindView, Placement};
pub use error::{exit_code, Error, IoRole, MAX_WALK_DEPTH};
pub use files::{charge_held, name_files};
pub use grading::{planned_hop, target_refusal, target_resolves_in_dest};
pub use hash::{sha256_hex, to_hex_lower};
pub use limits::{Budget, Limits};
pub use manifest::{
    check_manifest_version, copy_strings, is_whitespace, names_an_owner, position_of,
    require_owner, Manifest, ManifestEntry, RecordView, LOCK_FILE_NAME, MANIFEST_VERSION,
    OWNER_RULE,
};
pub use mapping::{
    check_mapping_version, inline_entry, mapping_tree, merge_expansion, validate_mapping,
    ArchiveTable, Body, Document, FileTable, LinkTable, MappingPlan, MAPPING_VERSION,
};
pub use snapshot::{
    classify, contained, directory_action, directory_in_the_way, drifted_directory,
    holding_beneath, in_state, overlaps_state, recorded_facts, status, unreadable_beneath,
    Observations, PathFacts, PathShape, Row,
};
pub use members::{tar_kind, TarMember};
pub use message::join_listed;
pub use stream::headroom;
pub use text::text_eq;
pub use walk::{NodeFound, ParentWalk, WalkMove, WalkStep};
pub use refusal::{BlockFault, Origin, Refusal, Refused};
