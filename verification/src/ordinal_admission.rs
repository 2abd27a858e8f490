//! Which node topologies an ordinal identity is rebuilt from: all that are
//! valid and within the limits.
use vstd::prelude::*;
use vstd::seq_lib::{to_multiset_build, to_multiset_len};

use crate::bytes::lemma_be_bytes_len;
use crate::external_sort::{
    lemma_key_order_len, nth_run, repeats, run_repeats, UuidIndexBuildLimits,
};
use crate::framing::pack;
use crate::keyed::{
    key_determines, key_order, Keyed, lemma_key_order, ordered, same_items, with_item,
};
use crate::ordinal_artifacts::tombstones_view;
use crate::ordinal_construction::{
    as_mappings, BundleModel, close_range, finish_outcome, follows, forward_stream, forward_view,
    fresh_writer, id_runs, lemma_id_runs_push, lemma_matching_projections, lemma_run_sizes,
    lemma_stream_ranges, ordinal_step, ordinal_stream, polled, run_range, run_ranges,
    stream_outcome, uuid_bytes, WriterModel,
};
use crate::ordinal_delta::{as_surrogates, delta_outcome, DeltaInput};
use crate::ordinal_format::{
    ArtifactFileView, ArtifactView, held, installed, manifest_artifacts, ordinal_blocks,
    ORDINAL_IDENTITY_V4, OrdinalManifestView, RangeView, V4OrdinalBuildMetrics,
};
use crate::ordinal_manifest::{admits, V4OrdinalBounds};
use crate::ordinal_publication::merged_outcome;
use crate::ordinal_rebuild::{
    projected, staging_outcome, V4RebuildScratchAccounting, with_all_staged, with_artifacts,
};
use crate::rebuild::{first_missing, mapping_rows, node_mappings, NodeRow, ScanRow};
use crate::records::{ForwardRecord, NodeSurrogate, NodeTombstone};

verus! {

/// Whether every node of a topology has an identity, and no UUID and no
/// identifier occurs twice.
pub open spec fn valid_topology(nodes: Seq<NodeRow>) -> bool {
    &&& forall|i: int|
        0 <= i < nodes.len() ==> (#[trigger] nodes[i]).uuid is Some && nodes[i].uuid->0 != 0
            && nodes[i].node_id is Some && nodes[i].node_id->0 != 0
    &&& forall|i: int, j: int|
        0 <= i < j < nodes.len() ==> (#[trigger] nodes[i]).uuid != (#[trigger] nodes[j]).uuid
            && nodes[i].node_id != nodes[j].node_id
}

/// Whether no two descriptors have one name.
pub open spec fn names_differ(artifacts: Seq<ArtifactView>) -> bool {
    forall|i: int, j: int|
        0 <= i < j < artifacts.len() ==> (#[trigger] artifacts[i]).name != (
        #[trigger] artifacts[j]).name
}

/// The artifacts of some mappings in identifier order, and of the mappings in
/// UUID order.
pub open spec fn stream_artifacts(
    generation: u64,
    forward: Seq<ForwardRecord>,
    ordinals: Seq<NodeSurrogate>,
) -> Seq<ArtifactView> {
    seq![forward_view(forward, generation)] + range_artifacts(
        run_ranges(id_runs(ordinals), generation),
    ) + seq![tombstones_view(Seq::empty(), generation).artifact]
}

/// The descriptors of ranges.
pub open spec fn range_artifacts(ranges: Seq<RangeView>) -> Seq<ArtifactView> {
    Seq::new(ranges.len(), |i: int| ranges[i].artifact)
}

/// Most nodes whose byte counts are counted.
pub open spec fn countable(nodes: nat) -> bool {
    nodes <= 0x40_0000_0000_0000
}

spec fn sound_forward(records: Seq<ForwardRecord>) -> bool {
    &&& ordered(records)
    &&& forall|i: int|
        0 <= i < records.len() ==> (#[trigger] records[i]).uuid != 0 && records[i].node_id != 0
}

spec fn sound_ordinals(records: Seq<NodeSurrogate>) -> bool {
    &&& ordered(records)
    &&& forall|i: int|
        0 <= i < records.len() ==> (#[trigger] records[i]).uuid != 0 && records[i].surrogate != 0
}

proof fn lemma_forward_admitted(before: WriterModel, records: Seq<ForwardRecord>)
    requires
        before.forward.len() == 0,
        sound_forward(records),
        countable(records.len()),
        before.metrics.cancellation_polls == 0,
        before.metrics.peak_temporary_bytes == 0,
    ensures
        forward_stream(before, records) is Ok,
        ({
            let after = forward_stream(before, records)->Ok_0;
            &&& after.forward == records
            &&& after.metrics.cancellation_polls == records.len()
            &&& after.metrics.peak_temporary_bytes <= 24 * records.len()
            &&& after == (WriterModel {
                forward: records,
                metrics: V4OrdinalBuildMetrics {
                    cancellation_polls: after.metrics.cancellation_polls,
                    peak_temporary_bytes: after.metrics.peak_temporary_bytes,
                    ..before.metrics
                },
                ..before
            })
        }),
    decreases records.len(),
{
    if records.len() == 0 {
        assert(before.forward =~= records);
    } else {
        let head = records.drop_last();
        let last = records.last();
        assert forall|i: int| 0 <= i < head.len() implies (#[trigger] head[i]).uuid != 0
            && head[i].node_id != 0 by {
            assert(head[i] == records[i]);
        }
        lemma_forward_admitted(before, head);
        let next = forward_stream(before, head)->Ok_0;
        if head.len() > 0 {
            assert(records[head.len() - 1].key() < records[records.len() - 1].key());
        }
        assert(last == records[records.len() - 1]);
        assert(records =~= head.push(ForwardRecord { uuid: last.uuid, node_id: last.node_id }));
    }
}

proof fn lemma_not_held(files: Seq<ArtifactFileView>, name: Seq<char>)
    requires
        forall|i: int| 0 <= i < files.len() ==> (#[trigger] files[i]).descriptor.name != name,
    ensures
        held(files, name) is None,
    decreases files.len(),
{
    if files.len() > 0 {
        assert(files[files.len() - 1].descriptor.name != name);
        assert forall|i: int| 0 <= i < files.drop_last().len() implies (
        #[trigger] files.drop_last()[i]).descriptor.name != name by {
            assert(files.drop_last()[i] == files[i]);
        }
        lemma_not_held(files.drop_last(), name);
    }
}

/// Whether the files are those of some descriptors, one after another.
spec fn files_of(files: Seq<ArtifactFileView>, artifacts: Seq<ArtifactView>) -> bool {
    &&& files.len() == artifacts.len()
    &&& forall|i: int|
        0 <= i < files.len() ==> (#[trigger] files[i]).descriptor.name == artifacts[i].name
}

proof fn lemma_packed_len(records: Seq<ForwardRecord>)
    ensures
        pack(records).len() == 24 * records.len(),
    decreases records.len(),
{
    if records.len() > 0 {
        lemma_packed_len(records.skip(1));
        lemma_be_bytes_len(records[0].uuid as nat, 16);
        lemma_be_bytes_len(records[0].node_id as nat, 8);
    }
}

proof fn lemma_blocks(bytes: nat)
    ensures
        ordinal_blocks(bytes) <= bytes,
{
}

/// The last run can be closed: its name is not taken and nothing overflows.
proof fn lemma_close_admitted(model: WriterModel)
    requires
        model.ordinals.len() > 0,
        countable(model.ordinals.len()),
        model.ranges == run_ranges(id_runs(model.ordinals).drop_last(), model.generation),
        files_of(model.files, range_artifacts(model.ranges)),
        names_differ(range_artifacts(run_ranges(id_runs(model.ordinals), model.generation))),
        model.metrics.fsync_operations <= id_runs(model.ordinals).len(),
        model.metrics.artifact_bytes + 16 * id_runs(model.ordinals).last().len() <= 16
            * model.ordinals.len(),
        model.metrics.write_blocks <= model.metrics.artifact_bytes,
        model.metrics.peak_temporary_bytes <= 40 * model.forward.len(),
        model.forward.len() >= model.ordinals.len(),
    ensures
        close_range(model) is Ok,
        ({
            let after = close_range(model)->Ok_0;
            let run = id_runs(model.ordinals).last();
            &&& after.ranges == run_ranges(id_runs(model.ordinals), model.generation)
            &&& files_of(after.files, range_artifacts(after.ranges))
            &&& after.metrics.fsync_operations == model.metrics.fsync_operations + 1
            &&& after.metrics.artifact_bytes == model.metrics.artifact_bytes + 16 * run.len()
            &&& after.metrics.write_blocks <= after.metrics.artifact_bytes
            &&& after.metrics.peak_temporary_bytes <= 40 * model.forward.len()
            &&& after == (WriterModel {
                ranges: after.ranges,
                files: after.files,
                metrics: V4OrdinalBuildMetrics {
                    fsync_operations: after.metrics.fsync_operations,
                    artifact_bytes: after.metrics.artifact_bytes,
                    write_blocks: after.metrics.write_blocks,
                    peak_temporary_bytes: after.metrics.peak_temporary_bytes,
                    ..model.metrics
                },
                ..model
            })
        }),
{
    let runs = id_runs(model.ordinals);
    let generation = model.generation;
    let ranges = run_ranges(runs, generation);
    lemma_id_runs_push(model.ordinals, model.ordinals.last());
    lemma_run_sizes(model.ordinals);
    let n = runs.len() - 1;
    let run = runs[n];
    assert(0 < run.len() <= model.ordinals.len());
    let range = run_range(run, generation);
    let content = uuid_bytes(run);
    lemma_blocks(content.len());
    assert(range == ranges[n]);
    assert forall|i: int| 0 <= i < model.files.len() implies (
    #[trigger] model.files[i]).descriptor.name != range.artifact.name by {
        assert(range_artifacts(ranges)[i].name != range_artifacts(ranges)[n].name);
        assert(runs.drop_last()[i] == runs[i]);
        assert(model.ranges[i] == ranges[i]);
    }
    lemma_not_held(model.files, range.artifact.name);
    let after = close_range(model)->Ok_0;
    assert(after.ranges =~= ranges) by {
        assert forall|i: int| 0 <= i < n implies model.ranges[i] == ranges[i] by {
            assert(runs.drop_last()[i] == runs[i]);
        }
    }
    assert forall|i: int| 0 <= i < after.files.len() implies (
    #[trigger] after.files[i]).descriptor.name == range_artifacts(after.ranges)[i].name by {
        if i < model.files.len() {
            assert(model.files[i].descriptor.name == range_artifacts(model.ranges)[i].name);
        }
    }
}

spec fn streaming(after: WriterModel, before: WriterModel, records: Seq<NodeSurrogate>) -> bool {
    let runs = id_runs(records);
    &&& after.ordinals == records
    &&& after.forward == before.forward
    &&& after.generation == before.generation
    &&& after.bounds == before.bounds
    &&& records.len() == 0 ==> after.ranges.len() == 0 && after.metrics.artifact_bytes == 0
        && after.metrics.write_blocks == 0 && after.metrics.fsync_operations == 0
    &&& records.len() > 0 ==> {
        &&& runs.len() > 0
        &&& after.ranges == run_ranges(runs.drop_last(), before.generation)
        &&& after.metrics.artifact_bytes + 16 * runs.last().len() <= 16 * records.len()
        &&& after.metrics.fsync_operations < runs.len()
        &&& after.metrics.write_blocks <= after.metrics.artifact_bytes
    }
    &&& files_of(after.files, range_artifacts(after.ranges))
    &&& after.metrics.cancellation_polls == before.metrics.cancellation_polls + records.len()
    &&& after.metrics.peak_temporary_bytes <= 40 * before.forward.len()
}

proof fn lemma_prefix_names(artifacts: Seq<ArtifactView>, some: Seq<ArtifactView>)
    requires
        names_differ(artifacts),
        some.len() <= artifacts.len(),
        forall|i: int| 0 <= i < some.len() ==> (#[trigger] some[i]) == artifacts[i],
    ensures
        names_differ(some),
{
    assert forall|i: int, j: int| 0 <= i < j < some.len() implies (#[trigger] some[i]).name != (
    #[trigger] some[j]).name by {
        assert(artifacts[i].name != artifacts[j].name);
    }
}

#[verifier::rlimit(40)]
proof fn lemma_ordinals_admitted(before: WriterModel, records: Seq<NodeSurrogate>)
    requires
        before.ordinals.len() == 0,
        before.ranges.len() == 0,
        before.files.len() == 0,
        before.metrics.artifact_bytes == 0,
        before.metrics.write_blocks == 0,
        before.metrics.fsync_operations == 0,
        before.metrics.peak_temporary_bytes <= 40 * before.forward.len(),
        before.metrics.cancellation_polls <= before.forward.len(),
        countable(before.forward.len()),
        records.len() <= before.forward.len(),
        sound_ordinals(records),
        id_runs(records).len() <= before.bounds.ranges,
        records.len() > 0 ==> names_differ(
            range_artifacts(run_ranges(id_runs(records).drop_last(), before.generation)),
        ),
    ensures
        ordinal_stream(before, records) is Ok,
        streaming(ordinal_stream(before, records)->Ok_0, before, records),
    decreases records.len(),
{
    let generation = before.generation;
    if records.len() == 0 {
        assert(before.ordinals =~= records);
    } else {
        let head = records.drop_last();
        let last = records.last();
        let runs = id_runs(head);
        let all = id_runs(records);
        assert(records =~= head.push(last));
        lemma_id_runs_push(head, last);
        lemma_id_runs_push(records, last);
        assert forall|i: int| 0 <= i < head.len() implies (#[trigger] head[i]).uuid != 0
            && head[i].surrogate != 0 by {
            assert(head[i] == records[i]);
        }
        assert(last == records[records.len() - 1]);
        if head.len() > 0 {
            assert(records[head.len() - 1].key() < records[records.len() - 1].key());
            lemma_prefix_names(
                range_artifacts(run_ranges(all.drop_last(), generation)),
                range_artifacts(run_ranges(runs.drop_last(), generation)),
            );
        }
        lemma_ordinals_admitted(before, head);
        let next = ordinal_stream(before, head)->Ok_0;
        let polled = WriterModel { metrics: polled(next.metrics, false)->Ok_0, ..next };
        if follows(head, last.surrogate) {
            assert(all.drop_last() =~= runs.drop_last());
            assert(all.last().len() == runs.last().len() + 1);
        } else {
            assert(all.drop_last() =~= runs);
            assert(all.last().len() == 1);
            if head.len() > 0 {
                lemma_close_admitted(polled);
                lemma_run_sizes(head);
            } else {
                assert(run_ranges(runs, generation) =~= next.ranges);
            }
        }
        let pushed = NodeSurrogate { surrogate: last.surrogate, uuid: last.uuid };
        assert(pushed == last);
        let after = ordinal_step(polled, last.surrogate, last.uuid)->Ok_0;
        assert(ordinal_step(polled, last.surrogate, last.uuid) is Ok);
        assert(after.ordinals =~= records);
    }
}

proof fn lemma_with_item_multiset<T: Keyed>(items: Seq<T>, item: T)
    requires
        forall|i: int| 0 <= i < items.len() ==> (#[trigger] items[i]).key() != item.key(),
    ensures
        with_item(items, item).to_multiset() == items.to_multiset().insert(item),
    decreases items.len(),
{
    to_multiset_build(items, item);
    if items.len() > 0 {
        assert(items[items.len() - 1].key() != item.key());
        if items.last().key() > item.key() {
            let head = items.drop_last();
            assert forall|i: int| 0 <= i < head.len() implies (#[trigger] head[i]).key()
                != item.key() by {
                assert(head[i] == items[i]);
            }
            lemma_with_item_multiset(head, item);
            to_multiset_build(with_item(head, item), items.last());
            to_multiset_build(head, items.last());
            assert(items =~= head.push(items.last()));
            assert(with_item(items, item).to_multiset() =~= items.to_multiset().insert(item));
        }
    }
}

proof fn lemma_key_order_multiset<T: Keyed>(items: Seq<T>)
    requires
        !repeats(items),
    ensures
        key_order(items).to_multiset() == items.to_multiset(),
        ordered(key_order(items)),
        same_items(key_order(items), items),
    decreases items.len(),
{
    assert(key_determines(items)) by {
        assert forall|i: int, j: int|
            0 <= i < items.len() && 0 <= j < items.len() && (#[trigger] items[i]).key() == (
            #[trigger] items[j]).key() implies items[i] == items[j] by {
            if i < j {
                assert(repeats(items));
            } else if j < i {
                assert(items[j].key() == items[i].key());
                assert(repeats(items));
            }
        }
    }
    lemma_key_order(items);
    if items.len() > 0 {
        let head = items.drop_last();
        let last = items.last();
        if repeats(head) {
            let (i, j) = choose|i: int, j: int|
                0 <= i < j < head.len() && (#[trigger] head[i]).key() == (#[trigger] head[j]).key();
            assert(items[i].key() == items[j].key());
        }
        lemma_key_order_multiset(head);
        let sorted = key_order(head);
        assert forall|i: int| 0 <= i < sorted.len() implies (#[trigger] sorted[i]).key()
            != last.key() by {
            assert(sorted.contains(sorted[i]));
            assert(head.contains(sorted[i]));
            let k = choose|k: int| 0 <= k < head.len() && head[k] == sorted[i];
            assert(items[k] == sorted[i]);
            if sorted[i].key() == last.key() {
                assert(items[k].key() == items[items.len() - 1].key());
                assert(repeats(items));
            }
        }
        lemma_with_item_multiset(sorted, last);
        to_multiset_build(head, last);
        assert(items =~= head.push(last));
    } else {
        assert(items =~= key_order(items));
    }
}

proof fn lemma_no_run_repeats<T: Keyed>(items: Seq<T>, n: nat)
    requires
        !repeats(items),
        n > 0,
    ensures
        !run_repeats(items, n),
{
    if run_repeats(items, n) {
        let k = choose|k: int|
            0 <= k && k * n < items.len() && repeats(#[trigger] nth_run(items, k, n));
        let run = nth_run(items, k, n);
        assert(0 <= k * n) by (nonlinear_arith)
            requires
                0 <= k,
        ;
        let (i, j) = choose|i: int, j: int|
            0 <= i < j < run.len() && (#[trigger] run[i]).key() == (#[trigger] run[j]).key();
        assert(items[k * n + i].key() == items[k * n + j].key());
    }
}

/// The manifest of a stream.
pub open spec fn stream_manifest(
    generation: u64,
    forward: Seq<ForwardRecord>,
    ordinals: Seq<NodeSurrogate>,
) -> OrdinalManifestView {
    OrdinalManifestView {
        format_version: ORDINAL_IDENTITY_V4,
        topology_generation: generation,
        forward: seq![forward_view(forward, generation)],
        ranges: run_ranges(id_runs(ordinals), generation),
        tombstones: seq![tombstones_view(Seq::empty(), generation)],
    }
}

/// Both projections of valid mappings are encoded, where the ranges and the
/// manifest are within their bounds and no two artifacts get one name.
#[verifier::rlimit(40)]
pub proof fn lemma_stream_admitted(
    generation: u64,
    bounds: V4OrdinalBounds,
    forward: Seq<ForwardRecord>,
    ordinals: Seq<NodeSurrogate>,
)
    requires
        generation > 0,
        countable(forward.len()),
        ordered(forward),
        ordered(ordinals),
        forall|i: int|
            0 <= i < forward.len() ==> (#[trigger] forward[i]).uuid != 0 && forward[i].node_id != 0,
        forall|i: int|
            0 <= i < ordinals.len() ==> (#[trigger] ordinals[i]).uuid != 0
                && ordinals[i].surrogate != 0,
        forward.to_multiset() == as_mappings(ordinals).to_multiset(),
        id_runs(ordinals).len() <= bounds.ranges,
        names_differ(stream_artifacts(generation, forward, ordinals)),
        admits(stream_manifest(generation, forward, ordinals), bounds.manifest_bytes),
    ensures
        stream_outcome(generation, bounds, forward, ordinals) is Ok,
        ({
            let bundle = stream_outcome(generation, bounds, forward, ordinals)->Ok_0;
            &&& bundle.metrics.input_records == forward.len()
            &&& bundle.metrics.peak_temporary_bytes <= 40 * forward.len()
            &&& manifest_artifacts(bundle.manifest) == stream_artifacts(
                generation,
                forward,
                ordinals,
            )
        }),
{
    let fresh = fresh_writer(generation, bounds);
    let runs = id_runs(ordinals);
    let ranges = run_ranges(runs, generation);
    let artifacts = stream_artifacts(generation, forward, ordinals);
    let tombstones = tombstones_view(Seq::empty(), generation);
    to_multiset_len(forward);
    to_multiset_len(as_mappings(ordinals));
    assert(forward.len() == ordinals.len());
    lemma_forward_admitted(fresh, forward);
    let next = forward_stream(fresh, forward)->Ok_0;
    assert(names_differ(range_artifacts(ranges))) by {
        assert forall|i: int, j: int| 0 <= i < j < ranges.len() implies (#[trigger] range_artifacts(
            ranges,
        )[i]).name != (#[trigger] range_artifacts(ranges)[j]).name by {
            assert(artifacts[i + 1] == ranges[i].artifact);
            assert(artifacts[j + 1] == ranges[j].artifact);
            assert(artifacts[i + 1].name != artifacts[j + 1].name);
        }
    }
    if ordinals.len() > 0 {
        lemma_id_runs_push(ordinals, ordinals.last());
        lemma_prefix_names(
            range_artifacts(ranges),
            range_artifacts(run_ranges(runs.drop_last(), generation)),
        );
    }
    lemma_ordinals_admitted(next, ordinals);
    let model = ordinal_stream(next, ordinals)->Ok_0;
    lemma_matching_projections(model);
    let counted = WriterModel {
        metrics: V4OrdinalBuildMetrics {
            input_records: model.forward.len() as u64,
            ..model.metrics
        },
        ..model
    };
    let closed = if ordinals.len() > 0 {
        lemma_close_admitted(counted);
        close_range(counted)->Ok_0
    } else {
        assert(counted.ranges =~= ranges);
        counted
    };
    let top = forward_view(forward, generation);
    lemma_packed_len(forward);
    assert(artifacts[0] == top);
    assert(artifacts[ranges.len() + 1int] == tombstones.artifact);
    assert forall|i: int| 0 <= i < closed.files.len() implies (
    #[trigger] closed.files[i]).descriptor.name != top.name && closed.files[i].descriptor.name
        != tombstones.artifact.name by {
        assert(artifacts[i + 1] == ranges[i].artifact);
        assert(range_artifacts(ranges)[i] == ranges[i].artifact);
        assert(artifacts[0].name != artifacts[i + 1].name);
        assert(artifacts[i + 1].name != artifacts[ranges.len() + 1int].name);
    }
    lemma_not_held(closed.files, top.name);
    let files = installed(
        closed.files,
        ArtifactFileView { descriptor: top, bytes: pack(forward) },
    );
    assert forall|i: int| 0 <= i < files.len() implies (#[trigger] files[i]).descriptor.name
        != tombstones.artifact.name by {
        if i < closed.files.len() {
            assert(files[i] == closed.files[i]);
        } else {
            assert(artifacts[0].name != artifacts[ranges.len() + 1int].name);
        }
    }
    lemma_not_held(files, tombstones.artifact.name);
    lemma_blocks(pack(forward).len());
    assert(closed.ranges =~= ranges);
    assert(finish_outcome(model) is Ok);
    lemma_stream_ranges(generation, bounds, forward, ordinals);
    let bundle = stream_outcome(generation, bounds, forward, ordinals)->Ok_0;
    assert(manifest_artifacts(bundle.manifest) =~= artifacts);
}

proof fn lemma_nothing_missing(rows: Seq<ScanRow<ForwardRecord>>)
    requires
        forall|i: int| 0 <= i < rows.len() ==> (#[trigger] rows[i]).value is Some,
    ensures
        first_missing(rows) == -1,
    decreases rows.len(),
{
    if rows.len() > 0 {
        assert(rows[rows.len() - 1].value is Some);
        assert forall|i: int| 0 <= i < rows.drop_last().len() implies (
        #[trigger] rows.drop_last()[i]).value is Some by {
            assert(rows.drop_last()[i] == rows[i]);
        }
        lemma_nothing_missing(rows.drop_last());
    }
}

/// Bytes of some artifacts.
spec fn artifact_total(artifacts: Seq<ArtifactView>) -> nat
    decreases artifacts.len(),
{
    if artifacts.len() == 0 {
        0
    } else {
        artifact_total(artifacts.drop_last()) + artifacts.last().bytes as nat
    }
}

proof fn lemma_total_pushed(artifacts: Seq<ArtifactView>, artifact: ArtifactView)
    ensures
        artifact_total(artifacts.push(artifact)) == artifact_total(artifacts)
            + artifact.bytes as nat,
{
    assert(artifacts.push(artifact).drop_last() =~= artifacts);
}

proof fn lemma_run_totals(first: ArtifactView, ordinals: Seq<NodeSurrogate>, generation: u64)
    requires
        countable(ordinals.len()),
    ensures
        artifact_total(
            seq![first] + range_artifacts(run_ranges(id_runs(ordinals), generation)),
        ) == first.bytes + 16 * ordinals.len(),
    decreases ordinals.len(),
{
    let runs = id_runs(ordinals);
    let all = seq![first] + range_artifacts(run_ranges(runs, generation));
    let none = Seq::<ArtifactView>::empty();
    lemma_total_pushed(none, first);
    if ordinals.len() == 0 {
        assert(all =~= none.push(first));
    } else {
        let head = ordinals.drop_last();
        let last = ordinals.last();
        let before = id_runs(head);
        assert(ordinals =~= head.push(last));
        lemma_id_runs_push(head, last);
        lemma_run_sizes(ordinals);
        lemma_run_sizes(head);
        lemma_run_totals(first, head, generation);
        let held = seq![first] + range_artifacts(run_ranges(before, generation));
        let new_range = run_range(runs.last(), generation).artifact;
        assert(runs.last() == runs[runs.len() - 1]);
        assert(new_range.bytes == 16 * runs.last().len());
        if follows(head, last.surrogate) {
            assert(before.last() == before[before.len() - 1]);
            let kept = seq![first] + range_artifacts(run_ranges(before.drop_last(), generation));
            let old_range = run_range(before.last(), generation).artifact;
            assert(held =~= kept.push(old_range));
            assert(all =~= kept.push(new_range));
            lemma_total_pushed(kept, old_range);
            lemma_total_pushed(kept, new_range);
            assert(old_range.bytes == 16 * before.last().len());
        } else {
            assert(all =~= held.push(new_range));
            lemma_total_pushed(held, new_range);
        }
    }
}

proof fn lemma_staging_admitted(scratch: V4RebuildScratchAccounting, artifacts: Seq<ArtifactView>)
    requires
        scratch.scratch_live,
        scratch.retained_staged_bytes == 0,
        scratch.staged_control_bytes == 0,
        2 * scratch.sorted_projection_bytes + scratch.live_artifact_bytes + artifact_total(
            artifacts,
        ) <= u64::MAX,
    ensures
        with_all_staged(scratch, artifacts) is Ok,
        ({
            let after = with_all_staged(scratch, artifacts)->Ok_0;
            &&& after.retained_staged_bytes == artifact_total(artifacts)
            &&& after.scratch_live
            &&& after.staged_control_bytes == 0
            &&& after.sorted_projection_bytes == scratch.sorted_projection_bytes
            &&& after.live_artifact_bytes == scratch.live_artifact_bytes
        }),
    decreases artifacts.len(),
{
    if artifacts.len() > 0 {
        lemma_staging_admitted(scratch, artifacts.drop_last());
    }
}

/// The ordinal identity of every valid node topology within the limits is
/// rebuilt, with as many nodes as the topology has: where the ranges and the
/// manifest are within their bounds and no two artifacts get one name, which
/// happens only where the digests of different contents begin alike.
#[verifier::rlimit(40)]
pub proof fn lemma_rebuild_admitted(
    generation: u64,
    nodes: Seq<NodeRow>,
    limits: UuidIndexBuildLimits,
    bounds: V4OrdinalBounds,
)
    requires
        generation > 0,
        limits.valid(),
        valid_topology(nodes),
        countable(nodes.len()),
        id_runs(key_order(as_surrogates(key_order(node_mappings(nodes))))).len() <= bounds.ranges,
        names_differ(
            stream_artifacts(
                generation,
                key_order(node_mappings(nodes)),
                key_order(as_surrogates(key_order(node_mappings(nodes)))),
            ),
        ),
        admits(
            stream_manifest(
                generation,
                key_order(node_mappings(nodes)),
                key_order(as_surrogates(key_order(node_mappings(nodes)))),
            ),
            bounds.manifest_bytes,
        ),
    ensures
        staging_outcome(generation, nodes, limits, bounds) is Ok,
        staging_outcome(generation, nodes, limits, bounds)->Ok_0.build.node_count
            == nodes.len(),
{
    let mappings = node_mappings(nodes);
    let forward = key_order(mappings);
    let surrogates = as_surrogates(forward);
    let ordinals = key_order(surrogates);
    let rows = mapping_rows(nodes);
    assert forall|i: int| 0 <= i < mappings.len() implies Some((#[trigger] mappings[i]).uuid)
        == nodes[i].uuid && Some(mappings[i].node_id) == nodes[i].node_id by {
        assert(rows[i].value is Some);
    }
    assert forall|i: int| 0 <= i < rows.len() implies (#[trigger] rows[i]).value is Some by {
        assert(nodes[i].uuid is Some);
    }
    lemma_nothing_missing(rows);
    if repeats(mappings) {
        let (i, j) = choose|i: int, j: int|
            0 <= i < j < mappings.len() && (#[trigger] mappings[i]).key() == (
            #[trigger] mappings[j]).key();
        assert(nodes[i].uuid != nodes[j].uuid);
    }
    lemma_no_run_repeats(mappings, limits.run_records as nat);
    lemma_key_order_multiset(mappings);
    lemma_key_order_len(mappings);
    assert forall|i: int| 0 <= i < forward.len() implies (#[trigger] forward[i]).uuid != 0
        && forward[i].node_id != 0 && mappings.contains(forward[i]) by {
        assert(forward.contains(forward[i]));
        let k = choose|k: int| 0 <= k < mappings.len() && mappings[k] == forward[i];
        assert(nodes[k].uuid is Some);
        assert(Some(mappings[k].uuid) == nodes[k].uuid);
    }
    if repeats(surrogates) {
        let (i, j) = choose|i: int, j: int|
            0 <= i < j < surrogates.len() && (#[trigger] surrogates[i]).key() == (
            #[trigger] surrogates[j]).key();
        let a = choose|a: int| 0 <= a < mappings.len() && mappings[a] == forward[i];
        let b = choose|b: int| 0 <= b < mappings.len() && mappings[b] == forward[j];
        assert(mappings.contains(forward[i]) && mappings.contains(forward[j]));
        assert(forward[i].key() < forward[j].key());
        assert(Some(mappings[a].node_id) == nodes[a].node_id);
        assert(Some(mappings[b].node_id) == nodes[b].node_id);
        if a < b {
            assert(nodes[a].node_id != nodes[b].node_id);
        } else {
            assert(nodes[b].node_id != nodes[a].node_id);
        }
    }
    lemma_no_run_repeats(surrogates, limits.run_records as nat);
    lemma_key_order_multiset(surrogates);
    lemma_key_order_len(surrogates);
    assert forall|i: int| 0 <= i < ordinals.len() implies (#[trigger] ordinals[i]).uuid != 0
        && ordinals[i].surrogate != 0 by {
        assert(ordinals.contains(ordinals[i]));
        let k = choose|k: int| 0 <= k < surrogates.len() && surrogates[k] == ordinals[i];
        assert(forward[k].uuid != 0);
    }
    let back = |record: NodeSurrogate|
        ForwardRecord { uuid: record.uuid, node_id: record.surrogate };
    crate::ranked::lemma_multiset_images(ordinals, surrogates, back);
    assert(Seq::new(ordinals.len(), |i: int| back(ordinals[i])) =~= as_mappings(ordinals));
    assert(Seq::new(surrogates.len(), |i: int| back(surrogates[i])) =~= forward);
    lemma_stream_admitted(generation, bounds, forward, ordinals);
    let bundle = stream_outcome(generation, bounds, forward, ordinals)->Ok_0;
    let bytes = (24 * nodes.len()) as u64;
    let scratch = projected(bytes)->Ok_0;
    let live = with_artifacts(scratch, bundle.metrics.peak_temporary_bytes)->Ok_0;
    let top = forward_view(forward, generation);
    let artifacts = stream_artifacts(generation, forward, ordinals);
    let held = seq![top] + range_artifacts(run_ranges(id_runs(ordinals), generation));
    let buried = tombstones_view(Seq::empty(), generation).artifact;
    lemma_run_totals(top, ordinals, generation);
    lemma_packed_len(forward);
    assert(artifacts =~= held.push(buried));
    lemma_total_pushed(held, buried);
    assert(pack(Seq::<NodeTombstone>::empty()).len() == 0);
    lemma_staging_admitted(live, artifacts);
}

/// An encoded stream has a manifest that readers admit.
pub proof fn lemma_stream_within(
    generation: u64,
    bounds: V4OrdinalBounds,
    forward: Seq<ForwardRecord>,
    ordinals: Seq<NodeSurrogate>,
)
    requires
        stream_outcome(generation, bounds, forward, ordinals) is Ok,
    ensures
        admits(
            stream_outcome(generation, bounds, forward, ordinals)->Ok_0.manifest,
            bounds.manifest_bytes,
        ),
{
    let fresh = fresh_writer(generation, bounds);
    let next = forward_stream(fresh, forward)->Ok_0;
    lemma_forward_bounds(fresh, forward);
    lemma_ordinal_bounds(next, ordinals);
}

proof fn lemma_forward_bounds(before: WriterModel, records: Seq<ForwardRecord>)
    ensures
        forward_stream(before, records) matches Ok(after) ==> after.bounds == before.bounds,
    decreases records.len(),
{
    if records.len() > 0 {
        lemma_forward_bounds(before, records.drop_last());
    }
}

proof fn lemma_ordinal_bounds(before: WriterModel, records: Seq<NodeSurrogate>)
    ensures
        ordinal_stream(before, records) matches Ok(after) ==> after.bounds == before.bounds,
    decreases records.len(),
{
    if records.len() > 0 {
        lemma_ordinal_bounds(before, records.drop_last());
    }
}

/// A rebuilt ordinal identity has a manifest that readers admit.
pub proof fn lemma_rebuild_within(
    generation: u64,
    nodes: Seq<NodeRow>,
    limits: UuidIndexBuildLimits,
    bounds: V4OrdinalBounds,
)
    requires
        staging_outcome(generation, nodes, limits, bounds) is Ok,
    ensures
        admits(
            staging_outcome(generation, nodes, limits, bounds)->Ok_0.bundle.manifest,
            bounds.manifest_bytes,
        ),
{
    let forward = key_order(node_mappings(nodes));
    lemma_stream_within(generation, bounds, forward, key_order(as_surrogates(forward)));
}

/// A planned delta has a manifest that readers admit.
pub proof fn lemma_delta_within(input: DeltaInput)
    requires
        delta_outcome(input) is Ok,
    ensures
        admits(delta_outcome(input)->Ok_0.manifest, input.bounds.manifest_bytes),
{
}

/// A construction on top of a parent has a manifest that readers admit.
pub proof fn lemma_construction_within(
    prior: OrdinalManifestView,
    bundle: BundleModel,
    pinned: Seq<ArtifactFileView>,
    authenticated: (u64, u64),
    maximum: u64,
    cancelled: Option<u64>,
)
    requires
        merged_outcome(prior, bundle, pinned, authenticated, maximum, cancelled) is Ok,
    ensures
        admits(
            merged_outcome(prior, bundle, pinned, authenticated, maximum, cancelled)->Ok_0.manifest,
            maximum,
        ),
{
}

} // verus!
