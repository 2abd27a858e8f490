//! Publication of constructed ordinal artifacts: on top of a parent inventory,
//! then receipt, inventory and lock in that order.
use vstd::prelude::*;
use vstd::string::*;

use crate::bytes::sat_add;
use crate::digest::{hex_sha256, sha256_hex};
use crate::error::{GfError, storage_err};
use crate::ordinal_compaction::{
    carried_unless, carry_filled, CarryState, compact_v4_binary_carry_with_cancellation,
    first_consumed, forward_intervals, lemma_intervals_contiguous, no_compaction_work, range_last, v4_forward_intervals,
    V4CompactionWork,
};
use crate::ordinal_construction::{BundleModel, V4ConstructionArtifactBundle};
use crate::ordinal_delta::{is_named, named_files};
use crate::ordinal_format::{
    ArtifactFileView, ArtifactView, duplicate_all, Duplicated, held, larger, list_artifacts,
    manifest_artifacts, max_of, OrdinalManifestView, V4ArtifactFile, V4OrdinalArtifact,
    V4OrdinalBuildMetrics, V4OrdinalIdentityManifest, V4OrdinalRange, V4OrdinalTombstones, views,
};
use crate::ordinal_manifest::{admit_v4_construction_manifest, admits};

verus! {

/// Why a constructed inventory does not continue its parent, if it does not.
pub open spec fn parent_fault(
    prior: OrdinalManifestView,
    delta: OrdinalManifestView,
) -> Option<Seq<char>> {
    if prior.topology_generation + 1 != delta.topology_generation {
        Some("construction ordinal parent generation changed"@)
    } else if prior.ranges.len() > 0 && range_last(prior.ranges.last()) > u64::MAX {
        Some("ordinal parent range overflows"@)
    } else if delta.ranges.len() > 0 && delta.ranges[0].first_node_id <= (if prior.ranges.len()
        > 0 {
        range_last(prior.ranges.last())
    } else {
        0
    }) {
        Some("construction ordinal delta reuses retained node IDs"@)
    } else {
        None
    }
}

/// A parent inventory with a constructed one after it.
pub open spec fn combined(
    prior: OrdinalManifestView,
    delta: OrdinalManifestView,
) -> OrdinalManifestView {
    OrdinalManifestView {
        format_version: prior.format_version,
        topology_generation: delta.topology_generation,
        forward: prior.forward + delta.forward,
        ranges: prior.ranges + delta.ranges,
        tombstones: prior.tombstones + delta.tombstones,
    }
}

/// The descriptors from a generation on.
pub open spec fn since(artifacts: Seq<ArtifactView>, first: Option<u64>) -> Seq<ArtifactView>
    decreases artifacts.len(),
{
    if artifacts.len() == 0 {
        Seq::empty()
    } else {
        let before = since(artifacts.drop_last(), first);
        if first is Some && artifacts.last().generation >= first->0 {
            before.push(artifacts.last())
        } else {
            before
        }
    }
}

/// The retained artifacts that a construction on top of a parent reads, or
/// why it cannot be.
pub open spec fn inputs_outcome(
    prior: OrdinalManifestView,
    delta: OrdinalManifestView,
) -> Result<Seq<ArtifactView>, Seq<char>> {
    match parent_fault(prior, delta) {
        Some(text) => Err(text),
        None => match forward_intervals(combined(prior, delta).forward) {
            Err(text) => Err(text),
            Ok(intervals) => Ok(since(manifest_artifacts(prior), first_consumed(intervals, None))),
        },
    }
}

/// Whether the last range of a parent that a constructed inventory continues
/// is not empty.
pub open spec fn parent_filled(prior: OrdinalManifestView, delta: OrdinalManifestView) -> bool {
    prior.topology_generation + 1 == delta.topology_generation && prior.ranges.len() > 0
        ==> prior.ranges.last().count > 0
}

fn check_parent(prior: &V4OrdinalIdentityManifest, delta: &V4OrdinalIdentityManifest) -> (checked:
    Result<(), GfError>)
    requires
        parent_filled(prior@, delta@),
    ensures
        crate::ordinal_delta::reports(checked, parent_fault(prior@, delta@)),
{
    let continues: bool = match prior.topology_generation.checked_add(1) {
        Some(next) => next == delta.topology_generation,
        None => false,
    };
    if !continues {
        return Err(storage_err("construction ordinal parent generation changed"));
    }
    let mut prior_end: u64 = 0;
    if prior.ordinal_ranges.len() > 0 {
        let last: &V4OrdinalRange = &prior.ordinal_ranges[prior.ordinal_ranges.len() - 1];
        assert(prior@.ranges.last().count > 0);
        match last.first_node_id.checked_add(last.count - 1) {
            Some(end) => {
                prior_end = end;
            },
            None => {
                return Err(storage_err("ordinal parent range overflows"));
            },
        }
    }
    if delta.ordinal_ranges.len() > 0 {
        assert(delta@.ranges[0] == delta.ordinal_ranges@[0]@);
        if delta.ordinal_ranges[0].first_node_id <= prior_end {
            return Err(storage_err("construction ordinal delta reuses retained node IDs"));
        }
    }
    Ok(())
}

/// A parent inventory with a constructed one after it.
fn combine(prior: &V4OrdinalIdentityManifest, delta: &V4OrdinalIdentityManifest) -> (manifest:
    V4OrdinalIdentityManifest)
    ensures
        manifest@ == combined(prior@, delta@),
{
    let mut forwards: Vec<V4OrdinalArtifact> = duplicate_all(&prior.forward_identities);
    let mut more: Vec<V4OrdinalArtifact> = duplicate_all(&delta.forward_identities);
    forwards.append(&mut more);
    assert(views(forwards@) =~= prior@.forward + delta@.forward);
    let mut ranges: Vec<V4OrdinalRange> = duplicate_all(&prior.ordinal_ranges);
    let mut more: Vec<V4OrdinalRange> = duplicate_all(&delta.ordinal_ranges);
    ranges.append(&mut more);
    assert(views(ranges@) =~= prior@.ranges + delta@.ranges);
    let mut tombstones: Vec<V4OrdinalTombstones> = duplicate_all(&prior.tombstones);
    let mut more: Vec<V4OrdinalTombstones> = duplicate_all(&delta.tombstones);
    tombstones.append(&mut more);
    assert(views(tombstones@) =~= prior@.tombstones + delta@.tombstones);
    V4OrdinalIdentityManifest {
        format_version: prior.format_version,
        topology_generation: delta.topology_generation,
        forward_identities: forwards,
        ordinal_ranges: ranges,
        tombstones,
    }
}

spec fn spans(intervals: Seq<(u64, u64, usize)>) -> Seq<(u64, u64)> {
    Seq::new(intervals.len(), |i: int| (intervals[i].0, intervals[i].1))
}

spec fn contiguous(intervals: Seq<(u64, u64, usize)>) -> bool {
    forall|i: int|
        1 <= i < intervals.len() ==> (#[trigger] intervals[i]).0 <= intervals[i].1 && intervals[i].0
            == intervals[i - 1].1 + 1
}

fn find_first_consumed(intervals: Vec<(u64, u64, usize)>) -> (first: Option<u64>)
    requires
        contiguous(intervals@),
    ensures
        first == first_consumed(spans(intervals@), None),
{
    let ghost all = spans(intervals@);
    let mut intervals: Vec<(u64, u64, usize)> = intervals;
    let mut found: Option<u64> = None;
    while intervals.len() >= 3
        invariant_except_break
            contiguous(intervals@),
            first_consumed(all, None) == first_consumed(spans(intervals@), found),
        ensures
            found == first_consumed(all, None),
        decreases intervals.len(),
    {
        let n: usize = intervals.len();
        let left: (u64, u64, usize) = intervals[n - 2];
        let right: (u64, u64, usize) = intervals[n - 1];
        let ghost before = spans(intervals@);
        let ghost held = intervals@;
        proof {
            assert(held[n - 2].0 <= held[n - 2].1);
            assert(held[n - 1].0 == held[n - 2].1 + 1);
            assert(before[n - 2] == (left.0, left.1));
            assert(before[n - 1] == (right.0, right.1));
        }
        if right.1 - right.0 != left.1 - left.0 {
            break;
        }
        found = Some(left.0);
        intervals.truncate(n - 2);
        intervals.push((left.0, right.1, left.2));
        proof {
            assert(spans(intervals@) =~= before.take(n - 2).push((left.0, right.1)));
            assert(contiguous(intervals@)) by {
                assert forall|i: int| 1 <= i < intervals@.len() implies (
                #[trigger] intervals@[i]).0 <= intervals@[i].1 && intervals@[i].0
                    == intervals@[i - 1].1 + 1 by {
                    assert(held[i].0 <= held[i].1 && held[i].0 == held[i - 1].1 + 1);
                }
            }
        }
    }
    found
}

/// The retained artifacts that a construction on top of a parent reads: those
/// from the first consumed generation on. An ordinary append reads none.
pub fn construction_v4_inputs(
    prior: &V4OrdinalIdentityManifest,
    delta: &V4OrdinalIdentityManifest,
) -> (inputs: Result<Vec<V4OrdinalArtifact>, GfError>)
    requires
        parent_filled(prior@, delta@),
    ensures
        ({
            let outcome = inputs_outcome(prior@, delta@);
            match inputs {
                Ok(inputs) => outcome == Ok::<Seq<ArtifactView>, Seq<char>>(views(inputs@)),
                Err(error) => outcome is Err && error.is_storage(outcome->Err_0),
            }
        }),
{
    match check_parent(prior, delta) {
        Ok(()) => {},
        Err(error) => {
            return Err(error);
        },
    }
    let both: V4OrdinalIdentityManifest = combine(prior, delta);
    let intervals: Vec<(u64, u64, usize)> = match v4_forward_intervals(&both.forward_identities) {
        Ok(intervals) => intervals,
        Err(error) => {
            return Err(error);
        },
    };
    proof {
        let want = forward_intervals(both@.forward)->Ok_0;
        lemma_intervals_contiguous(both@.forward);
        assert(spans(intervals@) =~= want);
        assert(contiguous(intervals@)) by {
            assert forall|i: int| 1 <= i < intervals@.len() implies (#[trigger] intervals@[i]).0
                <= intervals@[i].1 && intervals@[i].0 == intervals@[i - 1].1 + 1 by {
                assert(want[i].0 == want[i - 1].1 + 1 && want[i].0 <= want[i].1);
                assert(intervals@[i - 1] == (want[i - 1].0, want[i - 1].1, (i - 1) as usize));
            }
        }
    }
    let first: Option<u64> = find_first_consumed(intervals);
    let artifacts: Vec<V4OrdinalArtifact> = list_artifacts(prior);
    let ghost all = views(artifacts@);
    let mut inputs: Vec<V4OrdinalArtifact> = Vec::new();
    let mut i: usize = 0;
    assert(all.take(0) =~= Seq::<ArtifactView>::empty());
    assert(views(inputs@) =~= Seq::<ArtifactView>::empty());
    while i < artifacts.len()
        invariant
            i <= artifacts@.len(),
            all == views(artifacts@),
            views(inputs@) == since(all.take(i as int), first),
        decreases artifacts.len() - i,
    {
        let ghost before = inputs@;
        proof {
            assert(all.take(i + 1).drop_last() =~= all.take(i as int));
            assert(all[i as int] == artifacts@[i as int]@);
        }
        let read: bool = match first {
            Some(first) => artifacts[i].generation >= first,
            None => false,
        };
        if read {
            inputs.push(artifacts[i].duplicate());
            assert(views(inputs@) =~= views(before).push(all[i as int]));
        }
        i = i + 1;
    }
    assert(all.take(i as int) =~= all);
    Ok(inputs)
}

/// Counters of a build after a compaction, or what overflows.
pub open spec fn compacted_metrics(
    metrics: V4OrdinalBuildMetrics,
    work: V4CompactionWork,
) -> Result<V4OrdinalBuildMetrics, Seq<char>> {
    if metrics.artifact_bytes + work.write_bytes > u64::MAX || metrics.write_blocks
        + work.write_blocks > u64::MAX {
        Err("ordinal writes overflow"@)
    } else if metrics.fsync_operations + work.fsync_operations > u64::MAX {
        Err("ordinal fsyncs overflow"@)
    } else {
        Ok(
            V4OrdinalBuildMetrics {
                artifact_bytes: (metrics.artifact_bytes + work.write_bytes) as u64,
                write_blocks: (metrics.write_blocks + work.write_blocks) as u64,
                fsync_operations: (metrics.fsync_operations + work.fsync_operations) as u64,
                peak_buffer_bytes: larger(metrics.peak_buffer_bytes, 262_144),
                ..metrics
            },
        )
    }
}

fn add_compaction(metrics: &V4OrdinalBuildMetrics, work: &V4CompactionWork) -> (next: Result<
    V4OrdinalBuildMetrics,
    GfError,
>)
    ensures
        ({
            let outcome = compacted_metrics(*metrics, *work);
            match next {
                Ok(next) => outcome == Ok::<V4OrdinalBuildMetrics, Seq<char>>(next),
                Err(error) => outcome is Err && error.is_storage(outcome->Err_0),
            }
        }),
{
    let mut next: V4OrdinalBuildMetrics = *metrics;
    next.artifact_bytes =
    match metrics.artifact_bytes.checked_add(work.write_bytes) {
        Some(sum) => sum,
        None => {
            return Err(storage_err("ordinal writes overflow"));
        },
    };
    next.write_blocks =
    match metrics.write_blocks.checked_add(work.write_blocks) {
        Some(sum) => sum,
        None => {
            return Err(storage_err("ordinal writes overflow"));
        },
    };
    next.fsync_operations =
    match metrics.fsync_operations.checked_add(work.fsync_operations) {
        Some(sum) => sum,
        None => {
            return Err(storage_err("ordinal fsyncs overflow"));
        },
    };
    next.peak_buffer_bytes = max_of(metrics.peak_buffer_bytes, 262_144);
    Ok(next)
}

/// What a construction on top of a parent leaves.
#[verifier::ext_equal]
pub struct MergedModel {
    pub manifest: OrdinalManifestView,
    pub metrics: V4OrdinalBuildMetrics,
    /// New artifacts that the inventory names.
    pub files: Seq<ArtifactFileView>,
    /// Bytes and calls of reading.
    pub reads: (u64, u64),
}

/// What a construction on top of a parent leaves, or why it fails.
/// Authenticating the inputs took `authenticated` bytes and calls, readers admit
/// manifests of `maximum` bytes, and the compaction is cancelled at question
/// `cancelled`, if at any.
pub open spec fn merged_outcome(
    prior: OrdinalManifestView,
    bundle: BundleModel,
    pinned: Seq<ArtifactFileView>,
    authenticated: (u64, u64),
    maximum: u64,
    cancelled: Option<u64>,
) -> Result<MergedModel, Seq<char>> {
    match parent_fault(prior, bundle.manifest) {
        Some(text) => Err(text),
        None => match carried_unless(
            CarryState {
                manifest: combined(prior, bundle.manifest),
                files: bundle.files,
                work: no_compaction_work(),
            },
            pinned,
            cancelled,
        ) {
            Err(text) => Err(text),
            Ok(done) => match compacted_metrics(bundle.metrics, done.work) {
                Err(text) => Err(text),
                Ok(metrics) => if !admits(done.manifest, maximum) {
                    Err("v4 ordinal manifest exceeds the reader admission bound"@)
                } else if authenticated.0 + done.work.read_bytes > u64::MAX {
                    Err("ordinal read bytes overflow"@)
                } else if authenticated.1 + done.work.read_calls > u64::MAX {
                    Err("ordinal read calls overflow"@)
                } else {
                    Ok(
                        MergedModel {
                            manifest: done.manifest,
                            metrics,
                            files: named_files(done.files, manifest_artifacts(done.manifest)),
                            reads: (
                                (authenticated.0 + done.work.read_bytes) as u64,
                                (authenticated.1 + done.work.read_calls) as u64,
                            ),
                        },
                    )
                },
            },
        },
    }
}

/// A construction on top of a parent: the next inventory, its new artifacts
/// and the work.
#[derive(Debug, PartialEq, Eq)]
pub struct MergedConstruction {
    /// The next inventory.
    pub manifest: V4OrdinalIdentityManifest,
    /// Counters of the build.
    pub metrics: V4OrdinalBuildMetrics,
    /// New artifacts that the inventory names.
    pub files: Vec<V4ArtifactFile>,
    /// Bytes and calls of reading.
    pub reads: (u64, u64),
}

impl View for MergedConstruction {
    type V = MergedModel;

    open spec fn view(&self) -> MergedModel {
        MergedModel {
            manifest: self.manifest@,
            metrics: self.metrics,
            files: views(self.files@),
            reads: self.reads,
        }
    }
}

fn keep_named(files: Vec<V4ArtifactFile>, artifacts: &Vec<V4OrdinalArtifact>) -> (kept: Vec<
    V4ArtifactFile,
>)
    ensures
        views(kept@) == named_files(views(files@), views(artifacts@)),
{
    let ghost all = views(files@);
    let mut kept: Vec<V4ArtifactFile> = Vec::new();
    let mut i: usize = 0;
    assert(all.take(0) =~= Seq::<ArtifactFileView>::empty());
    assert(views(kept@) =~= Seq::<ArtifactFileView>::empty());
    while i < files.len()
        invariant
            i <= files@.len(),
            all == views(files@),
            views(kept@) == named_files(all.take(i as int), views(artifacts@)),
        decreases files.len() - i,
    {
        let ghost before = kept@;
        proof {
            assert(all.take(i + 1).drop_last() =~= all.take(i as int));
            assert(all[i as int] == files@[i as int]@);
        }
        if is_named(artifacts, &files[i].descriptor.name) {
            kept.push(
                V4ArtifactFile {
                    descriptor: files[i].descriptor.duplicate(),
                    bytes: vstd::slice::slice_to_vec(files[i].bytes.as_slice()),
                },
            );
            assert(views(kept@) =~= views(before).push(all[i as int]));
        }
        i = i + 1;
    }
    assert(all.take(i as int) =~= all);
    kept
}

/// Combine a constructed inventory with its parent and compact it, unless the
/// compaction is cancelled at a question.
pub fn merge_construction_v4_delta(
    prior: &V4OrdinalIdentityManifest,
    bundle: V4ConstructionArtifactBundle,
    pinned: &Vec<V4ArtifactFile>,
    authenticated: (u64, u64),
    maximum: u64,
    cancelled: Option<u64>,
) -> (merged: Result<MergedConstruction, GfError>)
    requires
        parent_filled(prior@, bundle@.manifest),
        parent_fault(prior@, bundle@.manifest) is None ==> carry_filled(
            combined(prior@, bundle@.manifest),
        ),
    ensures
        ({
            let outcome = merged_outcome(
                prior@,
                bundle@,
                views(pinned@),
                authenticated,
                maximum,
                cancelled,
            );
            match merged {
                Ok(merged) => outcome == Ok::<MergedModel, Seq<char>>(merged@),
                Err(error) => outcome is Err && error.is_storage(outcome->Err_0),
            }
        }),
{
    match check_parent(prior, &bundle.manifest) {
        Ok(()) => {},
        Err(error) => {
            return Err(error);
        },
    }
    let mut manifest: V4OrdinalIdentityManifest = combine(prior, &bundle.manifest);
    let mut files: Vec<V4ArtifactFile> = bundle.files;
    let work: V4CompactionWork = match compact_v4_binary_carry_with_cancellation(
        pinned,
        &mut manifest,
        &mut files,
        cancelled,
    ) {
        Ok(work) => work,
        Err(error) => {
            return Err(error);
        },
    };
    let metrics: V4OrdinalBuildMetrics = match add_compaction(&bundle.metrics, &work) {
        Ok(metrics) => metrics,
        Err(error) => {
            return Err(error);
        },
    };
    match admit_v4_construction_manifest(&manifest, maximum) {
        Ok(()) => {},
        Err(error) => {
            return Err(error);
        },
    }
    let bytes: u64 = match authenticated.0.checked_add(work.read_bytes) {
        Some(bytes) => bytes,
        None => {
            return Err(storage_err("ordinal read bytes overflow"));
        },
    };
    let calls: u64 = match authenticated.1.checked_add(work.read_calls) {
        Some(calls) => calls,
        None => {
            return Err(storage_err("ordinal read calls overflow"));
        },
    };
    let artifacts: Vec<V4OrdinalArtifact> = list_artifacts(&manifest);
    let kept: Vec<V4ArtifactFile> = keep_named(files, &artifacts);
    Ok(MergedConstruction { manifest, metrics, files: kept, reads: (bytes, calls) })
}

/// A published file.
#[derive(Debug, PartialEq, Eq)]
pub struct ConstructionIndexOutput {
    /// File name.
    pub name: String,
    /// Length of the file.
    pub bytes: u64,
    /// Hexadecimal SHA-256 digest of the file.
    pub sha256: String,
}

/// Model of a [`ConstructionIndexOutput`].
#[verifier::ext_equal]
pub struct OutputView {
    pub name: Seq<char>,
    pub bytes: u64,
    pub sha256: Seq<char>,
}

impl View for ConstructionIndexOutput {
    type V = OutputView;

    open spec fn view(&self) -> OutputView {
        OutputView { name: self.name@, bytes: self.bytes, sha256: self.sha256@ }
    }
}

/// The outputs for the artifacts that a directory holds.
pub open spec fn artifact_outputs(
    artifacts: Seq<ArtifactView>,
    files: Seq<ArtifactFileView>,
) -> Seq<OutputView>
    decreases artifacts.len(),
{
    if artifacts.len() == 0 {
        Seq::empty()
    } else {
        let before = artifact_outputs(artifacts.drop_last(), files);
        let last = artifacts.last();
        if held(files, last.name) is Some {
            before.push(OutputView { name: last.name, bytes: last.bytes, sha256: last.sha256 })
        } else {
            before
        }
    }
}

/// The output for a control file.
pub open spec fn control_output(name: Seq<char>, content: Seq<u8>) -> OutputView {
    OutputView { name, bytes: content.len() as u64, sha256: sha256_hex(content) }
}

/// Bytes of all outputs.
pub open spec fn output_total(outputs: Seq<OutputView>) -> nat
    decreases outputs.len(),
{
    if outputs.len() == 0 {
        0
    } else {
        output_total(outputs.drop_last()) + outputs.last().bytes as nat
    }
}

/// Work of a publication.
#[derive(Clone, Copy, Debug, PartialEq, Eq, Structural)]
pub struct V4OrdinalPublicationMetrics {
    /// Bytes read.
    pub read_bytes: u64,
    /// Reads.
    pub read_operations: u64,
    /// Bytes written.
    pub write_bytes: u64,
    /// Writes.
    pub write_operations: u64,
    /// Synchronizations: of the directory, twice for each control file, and
    /// of the four directories.
    pub fsync_operations: u64,
    /// Most temporary bytes live at a time.
    pub peak_temporary_bytes: u64,
}

/// The outputs of a publication in the order they are installed, and its
/// work, or what overflows.
pub open spec fn publication_outcome(
    manifest: OrdinalManifestView,
    files: Seq<ArtifactFileView>,
    receipt_name: Seq<char>,
    receipt: Seq<u8>,
    manifest_name: Seq<char>,
    body: Seq<u8>,
    reads: (u64, u64),
) -> Result<(Seq<OutputView>, V4OrdinalPublicationMetrics), Seq<char>> {
    let artifacts = artifact_outputs(manifest_artifacts(manifest), files);
    let written = sat_add(receipt.len() as u64, body.len() as u64);
    if output_total(artifacts) > u64::MAX {
        Err("v4 publication artifact byte count overflow"@)
    } else if output_total(artifacts) + written > u64::MAX {
        Err("v4 publication temporary byte count overflow"@)
    } else {
        Ok(
            (
                artifacts.push(control_output(receipt_name, receipt)).push(
                    control_output(manifest_name, body),
                ).push(control_output("ordinal-v4.lock"@, Seq::empty())),
                V4OrdinalPublicationMetrics {
                    read_bytes: reads.0,
                    read_operations: reads.1,
                    write_bytes: written,
                    write_operations: 3,
                    fsync_operations: 11,
                    peak_temporary_bytes: (output_total(artifacts) + written) as u64,
                },
            ),
        )
    }
}

proof fn lemma_output_total(outputs: Seq<OutputView>, n: int)
    requires
        0 <= n <= outputs.len(),
    ensures
        output_total(outputs.take(n)) <= output_total(outputs),
    decreases outputs.len(),
{
    if n < outputs.len() {
        assert(outputs.drop_last().take(n) =~= outputs.take(n));
        lemma_output_total(outputs.drop_last(), n);
    } else {
        assert(outputs.take(n) =~= outputs);
    }
}

fn sum_outputs(outputs: &Vec<ConstructionIndexOutput>) -> (sum: Option<u64>)
    ensures
        sum == if output_total(views(outputs@)) > u64::MAX {
            None
        } else {
            Some(output_total(views(outputs@)) as u64)
        },
{
    let ghost all = views(outputs@);
    let mut sum: u64 = 0;
    let mut i: usize = 0;
    assert(all.take(0) =~= Seq::<OutputView>::empty());
    while i < outputs.len()
        invariant
            i <= outputs@.len(),
            all == views(outputs@),
            sum == output_total(all.take(i as int)),
        decreases outputs.len() - i,
    {
        proof {
            assert(all.take(i + 1).drop_last() =~= all.take(i as int));
            assert(all[i as int] == outputs@[i as int]@);
            lemma_output_total(all, i + 1);
        }
        sum =
        match sum.checked_add(outputs[i].bytes) {
            Some(sum) => sum,
            None => {
                return None;
            },
        };
        i = i + 1;
    }
    assert(all.take(i as int) =~= all);
    Some(sum)
}

/// List the files of a publication in the order they are installed: the
/// artifacts, the receipt, the inventory, and the lock last. Nothing is listed
/// where the publication is cancelled before it starts.
pub fn publish_v4_construction_artifacts(
    merged: &MergedConstruction,
    receipt_name: &str,
    receipt: &Vec<u8>,
    manifest_name: &str,
    body: &Vec<u8>,
    cancelled: bool,
) -> (published: Result<
    (Vec<ConstructionIndexOutput>, V4OrdinalPublicationMetrics),
    GfError,
>)
    ensures
        ({
            let outcome = publication_outcome(
                merged@.manifest,
                merged@.files,
                receipt_name@,
                receipt@,
                manifest_name@,
                body@,
                merged@.reads,
            );
            match published {
                Ok((outputs, metrics)) => !cancelled && outcome == Ok::<
                    (Seq<OutputView>, V4OrdinalPublicationMetrics),
                    Seq<char>,
                >((views(outputs@), metrics)),
                Err(error) => if cancelled {
                    error.is_storage("construction ordinal publication cancelled"@)
                } else {
                    outcome is Err && error.is_storage(outcome->Err_0)
                },
            }
        }),
{
    if cancelled {
        return Err(storage_err("construction ordinal publication cancelled"));
    }
    let artifacts: Vec<V4OrdinalArtifact> = list_artifacts(&merged.manifest);
    let ghost all = views(artifacts@);
    let ghost files = views(merged.files@);
    let mut outputs: Vec<ConstructionIndexOutput> = Vec::new();
    let mut i: usize = 0;
    assert(all.take(0) =~= Seq::<ArtifactView>::empty());
    assert(views(outputs@) =~= Seq::<OutputView>::empty());
    while i < artifacts.len()
        invariant
            i <= artifacts@.len(),
            all == views(artifacts@),
            files == views(merged.files@),
            views(outputs@) == artifact_outputs(all.take(i as int), files),
        decreases artifacts.len() - i,
    {
        let ghost before = outputs@;
        proof {
            assert(all.take(i + 1).drop_last() =~= all.take(i as int));
            assert(all[i as int] == artifacts@[i as int]@);
        }
        match crate::ordinal_format::find_artifact(&merged.files, &artifacts[i].name) {
            Some(_) => {
                outputs.push(
                    ConstructionIndexOutput {
                        name: artifacts[i].name.clone(),
                        bytes: artifacts[i].bytes,
                        sha256: artifacts[i].sha256.clone(),
                    },
                );
                assert(views(outputs@) =~= views(before).push(outputs@.last()@));
            },
            None => {},
        }
        i = i + 1;
    }
    assert(all.take(i as int) =~= all);
    let ghost listed = views(outputs@);
    let total: u64 = match sum_outputs(&outputs) {
        Some(total) => total,
        None => {
            return Err(storage_err("v4 publication artifact byte count overflow"));
        },
    };
    let written: u64 = crate::bytes::saturating_sum(receipt.len() as u64, body.len() as u64);
    let peak: u64 = match total.checked_add(written) {
        Some(peak) => peak,
        None => {
            return Err(storage_err("v4 publication temporary byte count overflow"));
        },
    };
    outputs.push(
        ConstructionIndexOutput {
            name: receipt_name.to_owned(),
            bytes: receipt.len() as u64,
            sha256: hex_sha256(receipt.as_slice()),
        },
    );
    outputs.push(
        ConstructionIndexOutput {
            name: manifest_name.to_owned(),
            bytes: body.len() as u64,
            sha256: hex_sha256(body.as_slice()),
        },
    );
    let nothing: Vec<u8> = Vec::new();
    assert(nothing@ =~= Seq::<u8>::empty());
    outputs.push(
        ConstructionIndexOutput {
            name: "ordinal-v4.lock".to_owned(),
            bytes: 0,
            sha256: hex_sha256(nothing.as_slice()),
        },
    );
    assert(views(outputs@) =~= listed.push(control_output(receipt_name@, receipt@)).push(
        control_output(manifest_name@, body@),
    ).push(control_output("ordinal-v4.lock"@, Seq::empty())));
    Ok(
        (
            outputs,
            V4OrdinalPublicationMetrics {
                read_bytes: merged.reads.0,
                read_operations: merged.reads.1,
                write_bytes: written,
                write_operations: 3,
                fsync_operations: 11,
                peak_temporary_bytes: peak,
            },
        ),
    )
}

} // verus!
