//! Rebuilding the ordinal identity from canonical topology rows, with exact
//! accounting of the scratch space it takes.
use vstd::prelude::*;

use crate::error::{GfError, storage_err};
use crate::external_sort::{
    no_rebuild_metrics, repeats, sorted_metrics, UuidIndexBuildLimits, UuidIndexBuildMetrics,
};
use crate::keyed::key_order;
use crate::ordinal_construction::{
    BundleModel, stage_v4_ordinal_bundle, stream_outcome, V4ConstructionArtifactBundle,
};
use crate::ordinal_delta::{as_surrogates, build_surrogate_run, surrogate_fault};
use crate::ordinal_format::{
    ArtifactView, list_artifacts, manifest_artifacts, V4OrdinalArtifact, views,
};
use crate::ordinal_manifest::{encode_v4_manifest, manifest_form, V4OrdinalBounds};
use crate::rebuild::{mapping_scan_fault, node_mappings, NodeRow, scan_mappings, sort_scanned};
use crate::records::{ForwardRecord, NodeSurrogate};

verus! {

/// Scratch space of a rebuild.
#[derive(Clone, Copy, Debug, PartialEq, Eq, Structural)]
pub struct V4RebuildScratchAccounting {
    /// Most bytes live at a time.
    pub peak_bytes: u64,
    /// Bytes of one sorted projection.
    pub sorted_projection_bytes: u64,
    /// Bytes of the artifacts in scratch space.
    pub live_artifact_bytes: u64,
    /// Bytes of the artifacts staged for publication.
    pub retained_staged_bytes: u64,
    /// Bytes of the control records staged for publication.
    pub staged_control_bytes: u64,
    /// Whether the scratch space is live.
    pub scratch_live: bool,
}

/// No scratch space.
pub open spec fn no_scratch() -> V4RebuildScratchAccounting {
    V4RebuildScratchAccounting {
        peak_bytes: 0,
        sorted_projection_bytes: 0,
        live_artifact_bytes: 0,
        retained_staged_bytes: 0,
        staged_control_bytes: 0,
        scratch_live: false,
    }
}

/// The accounting once so many bytes were live.
pub open spec fn observed(scratch: V4RebuildScratchAccounting, bytes: int) -> Result<
    V4RebuildScratchAccounting,
    Seq<char>,
> {
    if bytes > u64::MAX {
        Err("v4 rebuild scratch byte count overflow"@)
    } else {
        Ok(
            V4RebuildScratchAccounting {
                peak_bytes: if bytes > scratch.peak_bytes {
                    bytes as u64
                } else {
                    scratch.peak_bytes
                },
                ..scratch
            },
        )
    }
}

/// Bytes that are live now.
pub open spec fn live_bytes(scratch: V4RebuildScratchAccounting) -> int {
    (if scratch.scratch_live {
        2 * scratch.sorted_projection_bytes + scratch.live_artifact_bytes
    } else {
        0
    }) + scratch.retained_staged_bytes + scratch.staged_control_bytes
}

/// The accounting with the first projection sorted.
pub open spec fn with_projection(scratch: V4RebuildScratchAccounting, bytes: u64) -> Result<
    V4RebuildScratchAccounting,
    Seq<char>,
> {
    observed(
        V4RebuildScratchAccounting { sorted_projection_bytes: bytes, ..scratch },
        2 * bytes,
    )
}

/// The accounting with the second projection sorted.
pub open spec fn with_surrogates(scratch: V4RebuildScratchAccounting, bytes: u64) -> Result<
    V4RebuildScratchAccounting,
    Seq<char>,
> {
    if bytes != scratch.sorted_projection_bytes {
        Err("v4 rebuild projections have inconsistent scratch sizes"@)
    } else {
        observed(scratch, scratch.sorted_projection_bytes + 2 * bytes)
    }
}

/// The accounting with the artifacts written.
pub open spec fn with_artifacts(scratch: V4RebuildScratchAccounting, bytes: u64) -> Result<
    V4RebuildScratchAccounting,
    Seq<char>,
> {
    let live = V4RebuildScratchAccounting {
        live_artifact_bytes: bytes,
        scratch_live: true,
        ..scratch
    };
    observed(live, live_bytes(live))
}

/// The accounting with one more artifact staged.
pub open spec fn with_staged_artifact(scratch: V4RebuildScratchAccounting, bytes: u64) -> Result<
    V4RebuildScratchAccounting,
    Seq<char>,
> {
    if scratch.retained_staged_bytes + bytes > u64::MAX {
        Err("v4 rebuild staged artifact byte count overflow"@)
    } else {
        let staged = V4RebuildScratchAccounting {
            retained_staged_bytes: (scratch.retained_staged_bytes + bytes) as u64,
            ..scratch
        };
        observed(staged, live_bytes(staged))
    }
}

/// The accounting with one more control record staged.
pub open spec fn with_staged_control(scratch: V4RebuildScratchAccounting, bytes: u64) -> Result<
    V4RebuildScratchAccounting,
    Seq<char>,
> {
    if scratch.staged_control_bytes + bytes > u64::MAX {
        Err("v4 rebuild staged control byte count overflow"@)
    } else {
        let staged = V4RebuildScratchAccounting {
            staged_control_bytes: (scratch.staged_control_bytes + bytes) as u64,
            ..scratch
        };
        observed(staged, live_bytes(staged))
    }
}

/// The accounting with the scratch space given back.
pub open spec fn released(scratch: V4RebuildScratchAccounting) -> Result<
    V4RebuildScratchAccounting,
    Seq<char>,
> {
    let free = V4RebuildScratchAccounting { scratch_live: false, ..scratch };
    observed(free, live_bytes(free))
}

/// Whether an accounting is what its model says.
pub open spec fn accounts(
    result: Result<V4RebuildScratchAccounting, GfError>,
    outcome: Result<V4RebuildScratchAccounting, Seq<char>>,
) -> bool {
    match result {
        Ok(scratch) => outcome == Ok::<V4RebuildScratchAccounting, Seq<char>>(scratch),
        Err(error) => outcome is Err && error.is_storage(outcome->Err_0),
    }
}

impl V4RebuildScratchAccounting {
    /// No scratch space.
    pub fn none() -> (scratch: V4RebuildScratchAccounting)
        ensures
            scratch == no_scratch(),
    {
        V4RebuildScratchAccounting {
            peak_bytes: 0,
            sorted_projection_bytes: 0,
            live_artifact_bytes: 0,
            retained_staged_bytes: 0,
            staged_control_bytes: 0,
            scratch_live: false,
        }
    }

    fn observe(self, bytes: Option<u64>, Ghost(total): Ghost<int>) -> (scratch: Result<
        V4RebuildScratchAccounting,
        GfError,
    >)
        requires
            bytes == if total > u64::MAX {
                None
            } else {
                Some(total as u64)
            },
            total >= 0,
        ensures
            accounts(scratch, observed(self, total)),
    {
        match bytes {
            Some(bytes) => {
                let mut scratch: V4RebuildScratchAccounting = self;
                if bytes > scratch.peak_bytes {
                    scratch.peak_bytes = bytes;
                }
                Ok(scratch)
            },
            None => Err(storage_err("v4 rebuild scratch byte count overflow")),
        }
    }

    fn observe_current(self) -> (scratch: Result<V4RebuildScratchAccounting, GfError>)
        ensures
            accounts(scratch, observed(self, live_bytes(self))),
    {
        let scratch: u128 = if self.scratch_live {
            2 * self.sorted_projection_bytes as u128 + self.live_artifact_bytes as u128
        } else {
            0
        };
        let total: u128 = scratch + self.retained_staged_bytes as u128
            + self.staged_control_bytes as u128;
        let bytes: Option<u64> = if total > 18_446_744_073_709_551_615 {
            None
        } else {
            Some(total as u64)
        };
        self.observe(bytes, Ghost(live_bytes(self)))
    }

    /// Account for the projection sorted by UUID: a merge output lies beside
    /// its inputs.
    pub fn register_sorted_projection(self, bytes: u64) -> (scratch: Result<
        V4RebuildScratchAccounting,
        GfError,
    >)
        ensures
            accounts(scratch, with_projection(self, bytes)),
    {
        let scratch = V4RebuildScratchAccounting { sorted_projection_bytes: bytes, ..self };
        scratch.observe(bytes.checked_mul(2), Ghost(2 * bytes))
    }

    /// Account for the projection sorted by identifier, beside the first.
    pub fn register_surrogate_projection(self, bytes: u64) -> (scratch: Result<
        V4RebuildScratchAccounting,
        GfError,
    >)
        ensures
            accounts(scratch, with_surrogates(self, bytes)),
    {
        if bytes != self.sorted_projection_bytes {
            return Err(storage_err("v4 rebuild projections have inconsistent scratch sizes"));
        }
        let total: Option<u64> = match bytes.checked_mul(2) {
            Some(double) => self.sorted_projection_bytes.checked_add(double),
            None => None,
        };
        self.observe(total, Ghost(self.sorted_projection_bytes + 2 * bytes))
    }

    /// Account for the artifacts, written beside both projections.
    pub fn register_artifacts(self, bytes: u64) -> (scratch: Result<
        V4RebuildScratchAccounting,
        GfError,
    >)
        ensures
            accounts(scratch, with_artifacts(self, bytes)),
    {
        let scratch = V4RebuildScratchAccounting {
            live_artifact_bytes: bytes,
            scratch_live: true,
            ..self
        };
        scratch.observe_current()
    }

    /// Account for an artifact staged for publication.
    pub fn register_staged_artifact(self, bytes: u64) -> (scratch: Result<
        V4RebuildScratchAccounting,
        GfError,
    >)
        ensures
            accounts(scratch, with_staged_artifact(self, bytes)),
    {
        match self.retained_staged_bytes.checked_add(bytes) {
            Some(total) => {
                let scratch = V4RebuildScratchAccounting { retained_staged_bytes: total, ..self };
                scratch.observe_current()
            },
            None => Err(storage_err("v4 rebuild staged artifact byte count overflow")),
        }
    }

    /// Account for a control record staged for publication.
    pub fn register_staged_control(self, bytes: u64) -> (scratch: Result<
        V4RebuildScratchAccounting,
        GfError,
    >)
        ensures
            accounts(scratch, with_staged_control(self, bytes)),
    {
        match self.staged_control_bytes.checked_add(bytes) {
            Some(total) => {
                let scratch = V4RebuildScratchAccounting { staged_control_bytes: total, ..self };
                scratch.observe_current()
            },
            None => Err(storage_err("v4 rebuild staged control byte count overflow")),
        }
    }

    /// Account for the end of the scratch space.
    pub fn release_scratch(self) -> (scratch: Result<V4RebuildScratchAccounting, GfError>)
        ensures
            accounts(scratch, released(self)),
    {
        let scratch = V4RebuildScratchAccounting { scratch_live: false, ..self };
        scratch.observe_current()
    }
}

/// The accounting with some artifacts staged.
pub open spec fn with_all_staged(
    scratch: V4RebuildScratchAccounting,
    artifacts: Seq<ArtifactView>,
) -> Result<V4RebuildScratchAccounting, Seq<char>>
    decreases artifacts.len(),
{
    if artifacts.len() == 0 {
        Ok(scratch)
    } else {
        match with_all_staged(scratch, artifacts.drop_last()) {
            Err(text) => Err(text),
            Ok(before) => with_staged_artifact(before, artifacts.last().bytes),
        }
    }
}

proof fn lemma_staging_fails(
    scratch: V4RebuildScratchAccounting,
    artifacts: Seq<ArtifactView>,
    n: int,
)
    requires
        0 <= n <= artifacts.len(),
        with_all_staged(scratch, artifacts.take(n)) is Err,
    ensures
        with_all_staged(scratch, artifacts) == with_all_staged(scratch, artifacts.take(n)),
    decreases artifacts.len(),
{
    if n < artifacts.len() {
        assert(artifacts.drop_last().take(n) =~= artifacts.take(n));
        lemma_staging_fails(scratch, artifacts.drop_last(), n);
    } else {
        assert(artifacts.take(n) =~= artifacts);
    }
}

fn stage_v4_rebuild_artifacts(
    scratch: V4RebuildScratchAccounting,
    artifacts: &Vec<V4OrdinalArtifact>,
) -> (staged: Result<V4RebuildScratchAccounting, GfError>)
    ensures
        accounts(staged, with_all_staged(scratch, views(artifacts@))),
{
    let ghost all = views(artifacts@);
    let mut staged: V4RebuildScratchAccounting = scratch;
    let mut i: usize = 0;
    while i < artifacts.len()
        invariant
            i <= artifacts@.len(),
            all == views(artifacts@),
            with_all_staged(scratch, all.take(i as int)) == Ok::<
                V4RebuildScratchAccounting,
                Seq<char>,
            >(staged),
        decreases artifacts.len() - i,
    {
        assert(all.take(i + 1).drop_last() =~= all.take(i as int));
        assert(all.take(i + 1).last() == artifacts@[i as int]@);
        match staged.register_staged_artifact(artifacts[i].bytes) {
            Ok(next) => {
                staged = next;
            },
            Err(error) => {
                proof {
                    lemma_staging_fails(scratch, all, i + 1);
                }
                return Err(error);
            },
        }
        i = i + 1;
    }
    assert(all.take(i as int) =~= all);
    Ok(staged)
}

/// A rebuilt ordinal identity, before its control records are staged.
#[derive(Debug, PartialEq, Eq)]
pub struct StagedV4OrdinalRebuild {
    /// Topology generation.
    pub generation: u64,
    /// The artifacts and their inventory.
    pub bundle: V4ConstructionArtifactBundle,
    /// Counters of sorting.
    pub build: UuidIndexBuildMetrics,
    /// Scratch space.
    pub scratch: V4RebuildScratchAccounting,
}

/// Model of a [`StagedV4OrdinalRebuild`].
pub ghost struct StagedModel {
    pub generation: u64,
    pub bundle: BundleModel,
    pub build: UuidIndexBuildMetrics,
    pub scratch: V4RebuildScratchAccounting,
}

impl View for StagedV4OrdinalRebuild {
    type V = StagedModel;

    open spec fn view(&self) -> StagedModel {
        StagedModel {
            generation: self.generation,
            bundle: self.bundle@,
            build: self.build,
            scratch: self.scratch,
        }
    }
}

/// Why the rows cannot be projected by UUID, if they cannot.
pub open spec fn projection_fault(
    generation: u64,
    nodes: Seq<NodeRow>,
    limits: UuidIndexBuildLimits,
) -> Option<Seq<char>> {
    if generation == 0 {
        Some("v4 ordinal identity requires a nonzero topology generation"@)
    } else if !limits.valid() {
        Some("UUID index build limits are invalid"@)
    } else if mapping_scan_fault(nodes, limits.run_records as nat) is Some {
        mapping_scan_fault(nodes, limits.run_records as nat)
    } else if repeats(node_mappings(nodes)) {
        Some("duplicate node UUID across external index runs"@)
    } else if 24 * nodes.len() > u64::MAX {
        Some("v4 rebuild scratch byte count overflow"@)
    } else {
        None
    }
}

/// Scratch space with both projections sorted.
pub open spec fn projected(bytes: u64) -> Result<V4RebuildScratchAccounting, Seq<char>> {
    match with_projection(no_scratch(), bytes) {
        Err(text) => Err(text),
        Ok(scratch) => with_surrogates(scratch, bytes),
    }
}

/// Scratch space with the artifacts of a bundle written and staged.
pub open spec fn staged_scratch(
    scratch: V4RebuildScratchAccounting,
    bundle: BundleModel,
) -> Result<V4RebuildScratchAccounting, Seq<char>> {
    match with_artifacts(scratch, bundle.metrics.peak_temporary_bytes) {
        Err(text) => Err(text),
        Ok(scratch) => with_all_staged(scratch, manifest_artifacts(bundle.manifest)),
    }
}

/// What a rebuild leaves, or why it fails.
pub open spec fn staging_outcome(
    generation: u64,
    nodes: Seq<NodeRow>,
    limits: UuidIndexBuildLimits,
    bounds: V4OrdinalBounds,
) -> Result<StagedModel, Seq<char>> {
    let forward = key_order(node_mappings(nodes));
    let bytes = (24 * nodes.len()) as u64;
    let ordinals = key_order(as_surrogates(forward));
    match projection_fault(generation, nodes, limits) {
        Some(text) => Err(text),
        None => match with_projection(no_scratch(), bytes) {
            Err(text) => Err(text),
            Ok(_) => match surrogate_fault(forward, limits.run_records as nat) {
                Some(text) => Err(text),
                None => match projected(bytes) {
                    Err(text) => Err(text),
                    Ok(scratch) => match stream_outcome(generation, bounds, forward, ordinals) {
                        Err(text) => Err(text),
                        Ok(bundle) => match staged_scratch(scratch, bundle) {
                            Err(text) => Err(text),
                            Ok(scratch) => Ok(
                                StagedModel {
                                    generation,
                                    bundle,
                                    build: UuidIndexBuildMetrics {
                                        node_count: bundle.metrics.input_records,
                                        ..sorted_metrics(
                                            sorted_metrics(
                                                no_rebuild_metrics(),
                                                nodes.len(),
                                                limits,
                                                true,
                                            ),
                                            nodes.len(),
                                            limits,
                                            false,
                                        )
                                    },
                                    scratch,
                                },
                            ),
                        },
                    },
                },
            },
        },
    }
}

/// Rebuild the ordinal identity of a generation from the rows of its topology.
pub fn rebuild_v4_ordinal_identity(
    generation: u64,
    nodes: &Vec<NodeRow>,
    limits: UuidIndexBuildLimits,
    bounds: V4OrdinalBounds,
) -> (staged: Result<StagedV4OrdinalRebuild, GfError>)
    ensures
        ({
            let outcome = staging_outcome(generation, nodes@, limits, bounds);
            match staged {
                Ok(staged) => outcome == Ok::<StagedModel, Seq<char>>(staged@),
                Err(error) => outcome is Err && error.is_storage(outcome->Err_0),
            }
        }),
{
    if generation == 0 {
        return Err(storage_err("v4 ordinal identity requires a nonzero topology generation"));
    }
    let limits: UuidIndexBuildLimits = match limits.validate() {
        Ok(limits) => limits,
        Err(error) => {
            return Err(error);
        },
    };
    let mappings: Vec<ForwardRecord> = match scan_mappings(nodes, limits.run_records) {
        Ok(mappings) => mappings,
        Err(error) => {
            return Err(error);
        },
    };
    let mut metrics: UuidIndexBuildMetrics = UuidIndexBuildMetrics::none();
    let forward: Vec<ForwardRecord> = match sort_scanned(
        &mappings,
        limits,
        &mut metrics,
        "duplicate node UUID across external index runs",
    ) {
        Ok(forward) => forward,
        Err(error) => {
            return Err(error);
        },
    };
    proof {
        crate::external_sort::lemma_key_order_len(mappings@);
    }
    let bytes: u64 = match (forward.len() as u64).checked_mul(24) {
        Some(bytes) => bytes,
        None => {
            return Err(storage_err("v4 rebuild scratch byte count overflow"));
        },
    };
    let scratch: V4RebuildScratchAccounting =
        match V4RebuildScratchAccounting::none().register_sorted_projection(bytes) {
        Ok(scratch) => scratch,
        Err(error) => {
            return Err(error);
        },
    };
    let ordinals: Vec<NodeSurrogate> = match build_surrogate_run(&forward, limits, &mut metrics) {
        Ok(ordinals) => ordinals,
        Err(error) => {
            return Err(error);
        },
    };
    let scratch: V4RebuildScratchAccounting = match scratch.register_surrogate_projection(bytes) {
        Ok(scratch) => scratch,
        Err(error) => {
            return Err(error);
        },
    };
    let bundle: V4ConstructionArtifactBundle = match stage_v4_ordinal_bundle(
        generation,
        bounds,
        &forward,
        &ordinals,
    ) {
        Ok(bundle) => bundle,
        Err(error) => {
            return Err(error);
        },
    };
    let scratch: V4RebuildScratchAccounting = match scratch.register_artifacts(
        bundle.metrics.peak_temporary_bytes,
    ) {
        Ok(scratch) => scratch,
        Err(error) => {
            return Err(error);
        },
    };
    metrics.node_count = bundle.metrics.input_records;
    let artifacts: Vec<V4OrdinalArtifact> = list_artifacts(&bundle.manifest);
    match stage_v4_rebuild_artifacts(scratch, &artifacts) {
        Ok(scratch) => Ok(
            StagedV4OrdinalRebuild { generation, bundle, build: metrics, scratch },
        ),
        Err(error) => Err(error),
    }
}

/// What an ordinal identity was rebuilt from.
#[derive(Clone, Copy, Debug, PartialEq, Eq, Structural)]
pub enum V4OrdinalRebuildDisposition {
    /// The rows of the topology.
    CanonicalTopology,
}

/// What is reported of a rebuild.
#[derive(Clone, Copy, Debug, PartialEq, Eq, Structural)]
pub struct V4OrdinalRebuildEvidence {
    /// What it was rebuilt from.
    pub disposition: V4OrdinalRebuildDisposition,
    /// Topology generation.
    pub topology_generation: u64,
    /// Mappings.
    pub input_identities: u64,
    /// Ordinal ranges.
    pub ordinal_ranges: u64,
    /// Bytes of all artifacts.
    pub artifact_bytes: u64,
    /// Blocks written.
    pub write_blocks: u64,
    /// Most bytes buffered at a time.
    pub peak_buffer_bytes: u64,
    /// Most temporary bytes live at a time.
    pub peak_temporary_bytes: u64,
    /// File synchronizations.
    pub fsync_operations: u64,
    /// Counters of sorting.
    pub build: UuidIndexBuildMetrics,
}

/// Scratch space with both control records staged.
pub open spec fn controlled(
    scratch: V4RebuildScratchAccounting,
    manifest_bytes: u64,
    receipt_bytes: u64,
) -> Result<V4RebuildScratchAccounting, Seq<char>> {
    match with_staged_control(scratch, manifest_bytes) {
        Err(text) => Err(text),
        Ok(scratch) => match released(scratch) {
            Err(text) => Err(text),
            Ok(scratch) => with_staged_control(scratch, receipt_bytes),
        },
    }
}

/// What is reported of a rebuild, or why it fails.
pub open spec fn evidence_outcome(
    staged: StagedModel,
    maximum: u64,
    receipt_bytes: u64,
) -> Result<V4OrdinalRebuildEvidence, Seq<char>> {
    let manifest_bytes = manifest_form(staged.bundle.manifest).len();
    if manifest_bytes > maximum {
        Err("v4 ordinal manifest exceeds bound"@)
    } else {
        match controlled(staged.scratch, manifest_bytes as u64, receipt_bytes) {
            Err(text) => Err(text),
            Ok(scratch) => Ok(
                V4OrdinalRebuildEvidence {
                    disposition: V4OrdinalRebuildDisposition::CanonicalTopology,
                    topology_generation: staged.generation,
                    input_identities: staged.bundle.metrics.input_records,
                    ordinal_ranges: staged.bundle.metrics.ranges,
                    artifact_bytes: staged.bundle.metrics.artifact_bytes,
                    write_blocks: staged.bundle.metrics.write_blocks,
                    peak_buffer_bytes: staged.bundle.metrics.peak_buffer_bytes,
                    peak_temporary_bytes: scratch.peak_bytes,
                    fsync_operations: staged.bundle.metrics.fsync_operations,
                    build: staged.build,
                },
            ),
        }
    }
}

/// Stage the control records of a rebuild and report it: the inventory, then
/// the end of the scratch space, then the receipt by its length.
pub fn rebuild_v4_ordinal_identity_with_evidence(
    staged: &StagedV4OrdinalRebuild,
    maximum: u64,
    receipt_bytes: u64,
) -> (evidence: Result<V4OrdinalRebuildEvidence, GfError>)
    ensures
        ({
            let outcome = evidence_outcome(staged@, maximum, receipt_bytes);
            match evidence {
                Ok(evidence) => outcome == Ok::<V4OrdinalRebuildEvidence, Seq<char>>(evidence),
                Err(error) => outcome is Err && error.is_storage(outcome->Err_0),
            }
        }),
{
    let manifest_bytes: u64 = encode_v4_manifest(&staged.bundle.manifest).len() as u64;
    if manifest_bytes > maximum {
        return Err(storage_err("v4 ordinal manifest exceeds bound"));
    }
    let scratch: V4RebuildScratchAccounting = match staged.scratch.register_staged_control(
        manifest_bytes,
    ) {
        Ok(scratch) => scratch,
        Err(error) => {
            return Err(error);
        },
    };
    let scratch: V4RebuildScratchAccounting = match scratch.release_scratch() {
        Ok(scratch) => scratch,
        Err(error) => {
            return Err(error);
        },
    };
    let scratch: V4RebuildScratchAccounting = match scratch.register_staged_control(
        receipt_bytes,
    ) {
        Ok(scratch) => scratch,
        Err(error) => {
            return Err(error);
        },
    };
    Ok(
        V4OrdinalRebuildEvidence {
            disposition: V4OrdinalRebuildDisposition::CanonicalTopology,
            topology_generation: staged.generation,
            input_identities: staged.bundle.metrics.input_records,
            ordinal_ranges: staged.bundle.metrics.ranges,
            artifact_bytes: staged.bundle.metrics.artifact_bytes,
            write_blocks: staged.bundle.metrics.write_blocks,
            peak_buffer_bytes: staged.bundle.metrics.peak_buffer_bytes,
            peak_temporary_bytes: scratch.peak_bytes,
            fsync_operations: staged.bundle.metrics.fsync_operations,
            build: staged.build,
        },
    )
}

/// Bytes of some artifacts.
pub open spec fn total_bytes(artifacts: Seq<ArtifactView>) -> nat
    decreases artifacts.len(),
{
    if artifacts.len() == 0 {
        0
    } else {
        total_bytes(artifacts.drop_last()) + artifacts.last().bytes as nat
    }
}

proof fn lemma_staged_peak(scratch: V4RebuildScratchAccounting, artifacts: Seq<ArtifactView>)
    requires
        with_all_staged(scratch, artifacts) is Ok,
        scratch.peak_bytes >= live_bytes(scratch),
        scratch.scratch_live,
    ensures
        ({
            let after = with_all_staged(scratch, artifacts)->Ok_0;
            &&& after.scratch_live
            &&& after.sorted_projection_bytes == scratch.sorted_projection_bytes
            &&& after.live_artifact_bytes == scratch.live_artifact_bytes
            &&& after.staged_control_bytes == scratch.staged_control_bytes
            &&& after.retained_staged_bytes == scratch.retained_staged_bytes + total_bytes(
                artifacts,
            )
            &&& after.peak_bytes == if live_bytes(after) > scratch.peak_bytes {
                live_bytes(after)
            } else {
                scratch.peak_bytes as int
            }
        }),
    decreases artifacts.len(),
{
    if artifacts.len() > 0 {
        lemma_staged_peak(scratch, artifacts.drop_last());
    }
}

/// The larger of two numbers.
pub open spec fn greater(left: int, right: int) -> int {
    if left > right {
        left
    } else {
        right
    }
}

/// The peak of a rebuild is exact: the largest of three projections while the
/// second is sorted, two projections with everything that is written and
/// staged beside them, and what is staged in the end.
pub proof fn lemma_scratch_peak(
    projection: u64,
    bundle: BundleModel,
    manifest_bytes: u64,
    receipt_bytes: u64,
)
    requires
        projected(projection) is Ok,
        staged_scratch(projected(projection)->Ok_0, bundle) is Ok,
        controlled(
            staged_scratch(projected(projection)->Ok_0, bundle)->Ok_0,
            manifest_bytes,
            receipt_bytes,
        ) is Ok,
    ensures
        ({
            let staged = total_bytes(manifest_artifacts(bundle.manifest));
            let last = controlled(
                staged_scratch(projected(projection)->Ok_0, bundle)->Ok_0,
                manifest_bytes,
                receipt_bytes,
            )->Ok_0;
            last.peak_bytes == greater(
                3 * projection,
                greater(
                    2 * projection + bundle.metrics.peak_temporary_bytes + staged + manifest_bytes,
                    staged + manifest_bytes + receipt_bytes,
                ),
            )
        }),
{
    let first = projected(projection)->Ok_0;
    let written = with_artifacts(first, bundle.metrics.peak_temporary_bytes)->Ok_0;
    assert(first.peak_bytes == 3 * projection);
    lemma_staged_peak(written, manifest_artifacts(bundle.manifest));
}

} // verus!
