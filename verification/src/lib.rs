//! Verified core of the GraphForge storage layer.
//!
//! The membership index keeps which UUIDs of a graph are live nodes or edges
//! and which surrogate a node has; the ordinal artifacts keep the same mapping
//! by surrogate. Around them stand the snapshots, rewrites and recovery of an
//! index, the vector snapshots, the workspace records and the verification of
//! a project store.
use vstd::prelude::*;

pub mod artifact_laws;
pub mod authority_laws;
pub mod bytes;
pub mod cancellation;
pub mod canonical_json;
pub mod carry_questions;
pub mod commitments;
pub mod construction;
pub mod construction_history;
pub mod construction_laws;
pub mod construction_sources;
pub mod construction_stream;
pub mod decision_laws;
pub mod delta_laws;
pub mod digest;
pub mod digest_laws;
pub mod error;
pub mod escape_laws;
pub mod external_sort;
pub mod fences;
pub mod forward_laws;
pub mod framing;
pub mod graded;
pub mod history;
pub mod identity_codec;
pub mod index_format;
pub mod json_documents;
pub mod keyed;
pub mod lease_laws;
pub mod maintenance;
pub mod maintenance_laws;
pub mod membership;
pub mod merge_stops;
pub mod migration;
pub mod name_laws;
pub mod ordinal_admission;
pub mod ordinal_artifacts;
pub mod ordinal_compaction;
pub mod ordinal_construction;
pub mod ordinal_delta;
pub mod ordinal_format;
pub mod ordinal_history;
pub mod ordinal_laws;
pub mod ordinal_manifest;
pub mod ordinal_publication;
pub mod ordinal_rebuild;
pub mod payload_stops;
pub mod pin_laws;
pub mod plan_cleanup;
pub mod private_names;
pub mod private_residue;
pub mod probe_laws;
pub mod probing;
pub mod publication_guard;
pub mod ranked;
pub mod rebuild;
pub mod rebuild_laws;
pub mod receipts;
pub mod records;
pub mod reference_laws;
pub mod references;
pub mod residue_laws;
pub mod revalidation;
pub mod rewrite;
pub mod rewrite_history;
pub mod rewrite_laws;
pub mod runs;
pub mod snapshot;
pub mod snapshot_laws;
pub mod stream_laws;
pub mod topology_delta;
pub mod vector_laws;
pub mod vector_store;
pub mod verify;
pub mod verify_laws;
pub mod workspace;
pub mod workspace_composition;
pub mod workspace_configuration;
pub mod workspace_laws;
pub mod workspace_snapshot;

verus! {

} // verus!
