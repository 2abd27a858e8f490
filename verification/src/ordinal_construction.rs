//! Incremental encoder of a node stream: a forward run in UUID order, maximal
//! contiguous ordinal ranges, and an explicit empty tombstone run.
use vstd::prelude::*;
use vstd::string::*;

use crate::bytes::{
    be_bytes, be_value, lemma_be_bytes_len, lemma_be_order, lemma_be_value_of_bytes, lemma_pow256_words, same_bytes,
};
use crate::commitments::{
    add_v4_mapping_commitment, commitment, empty_commitment, lemma_commitment_order,
};
use crate::error::{GfError, storage_err};
use crate::framing::{Framed, lemma_pack_push, pack};
use crate::ordinal_artifacts::{
    finish_streamed_v4_range, range_fault, range_view, tombstones_view, V4OrdinalRangeWriter,
};
use crate::ordinal_format::{
    ArtifactFileView, ArtifactView, backed, finish_fault, finish_streamed_v4_artifact, installed,
    larger, lemma_installed, manifest_artifacts, max_of, no_build_metrics, ORDINAL_IDENTITY_V4,
    OrdinalManifestView, RangeView, sealed_metrics, sealed_view, V4ArtifactFile,
    V4OrdinalArtifact, V4OrdinalArtifactKind, V4OrdinalBuildMetrics, V4OrdinalIdentityManifest,
    V4OrdinalRange, V4OrdinalTombstones, views,
};
use crate::ordinal_manifest::{admit_v4_construction_manifest, admitted, V4OrdinalBounds};
use crate::records::{ForwardRecord, NodeSurrogate, NodeTombstone};

verus! {

/// The records of consecutive identifiers, as long as they are consecutive.
pub open spec fn id_runs(ordinals: Seq<NodeSurrogate>) -> Seq<Seq<NodeSurrogate>>
    decreases ordinals.len(),
{
    if ordinals.len() == 0 {
        Seq::empty()
    } else {
        let before = id_runs(ordinals.drop_last());
        let last = ordinals.last();
        if follows(ordinals.drop_last(), last.surrogate) {
            before.drop_last().push(before.last().push(last))
        } else {
            before.push(seq![last])
        }
    }
}

/// Whether an identifier is the one after the last.
pub open spec fn follows(ordinals: Seq<NodeSurrogate>, node_id: u64) -> bool {
    ordinals.len() > 0 && ordinals.last().surrogate + 1 == node_id
}

/// The UUIDs of a run.
pub open spec fn uuid_bytes(run: Seq<NodeSurrogate>) -> Seq<u8>
    decreases run.len(),
{
    if run.len() == 0 {
        Seq::empty()
    } else {
        uuid_bytes(run.drop_last()) + be_bytes(run.last().uuid as nat, 16)
    }
}

proof fn lemma_uuid_bytes(run: Seq<NodeSurrogate>, last: NodeSurrogate)
    ensures
        uuid_bytes(run.push(last)) == uuid_bytes(run) + be_bytes(last.uuid as nat, 16),
        uuid_bytes(run).len() == 16 * run.len(),
    decreases run.len(),
{
    assert(run.push(last).drop_last() =~= run);
    if run.len() > 0 {
        lemma_uuid_bytes(run.drop_last(), run.last());
        lemma_be_bytes_len(run.last().uuid as nat, 16);
        assert(run =~= run.drop_last().push(run.last()));
    }
}

/// One more record: it continues the last run or starts a new one.
pub(crate) proof fn lemma_id_runs_push(ordinals: Seq<NodeSurrogate>, last: NodeSurrogate)
    ensures
        id_runs(ordinals.push(last)) == if follows(ordinals, last.surrogate) {
            id_runs(ordinals).drop_last().push(id_runs(ordinals).last().push(last))
        } else {
            id_runs(ordinals).push(seq![last])
        },
        ordinals.len() > 0 ==> id_runs(ordinals).len() > 0 && id_runs(ordinals).last().len() > 0,
        id_runs(ordinals).len() <= ordinals.len(),
    decreases ordinals.len(),
{
    assert(ordinals.push(last).drop_last() =~= ordinals);
    if ordinals.len() > 0 {
        lemma_id_runs_push(ordinals.drop_last(), ordinals.last());
        assert(ordinals =~= ordinals.drop_last().push(ordinals.last()));
    }
}

/// All records of some runs, in order.
pub open spec fn joined(runs: Seq<Seq<NodeSurrogate>>) -> Seq<NodeSurrogate>
    decreases runs.len(),
{
    if runs.len() == 0 {
        Seq::empty()
    } else {
        joined(runs.drop_last()) + runs.last()
    }
}

/// Whether a run is not empty and its identifiers are consecutive.
pub open spec fn consecutive(run: Seq<NodeSurrogate>) -> bool {
    &&& run.len() > 0
    &&& forall|i: int|
        0 <= i < run.len() ==> (#[trigger] run[i]).surrogate == run[0].surrogate + i
}

/// The ranges of a stream are its records cut into consecutive runs, and no
/// two neighbouring runs could be one.
pub proof fn lemma_ranges_maximal(ordinals: Seq<NodeSurrogate>)
    ensures
        joined(id_runs(ordinals)) == ordinals,
        forall|i: int| 0 <= i < id_runs(ordinals).len() ==> consecutive(#[trigger] id_runs(ordinals)[i]),
        forall|i: int|
            0 < i < id_runs(ordinals).len() ==> id_runs(ordinals)[i - 1].last().surrogate + 1 != (
            #[trigger] id_runs(ordinals)[i])[0].surrogate,
    decreases ordinals.len(),
{
    if ordinals.len() > 0 {
        let head = ordinals.drop_last();
        let last = ordinals.last();
        assert(ordinals =~= head.push(last));
        lemma_ranges_maximal(head);
        lemma_id_runs_push(head, last);
        let before = id_runs(head);
        let after = id_runs(ordinals);
        if follows(head, last.surrogate) {
            assert(after.drop_last() =~= before.drop_last());
            assert(joined(before) == joined(before.drop_last()) + before.last());
            assert(joined(after) =~= joined(before).push(last));
            let open = before.last();
            assert(consecutive(open));
            assert(head.last() == open.last()) by {
                assert(joined(before).last() == open.last());
            }
            assert(consecutive(open.push(last)));
            assert forall|i: int| 0 <= i < after.len() implies consecutive(#[trigger] after[i]) by {
                if i < after.len() - 1 {
                    assert(after[i] == before[i]);
                }
            }
            assert forall|i: int| 0 < i < after.len() implies after[i - 1].last().surrogate + 1 != (
            #[trigger] after[i])[0].surrogate by {
                assert(after[i - 1] == before[i - 1]);
                assert(after[i][0] == before[i][0]);
            }
        } else {
            assert(after.drop_last() =~= before);
            assert(joined(after) =~= joined(before).push(last));
            assert forall|i: int| 0 <= i < after.len() implies consecutive(#[trigger] after[i]) by {
                if i < before.len() {
                    assert(after[i] == before[i]);
                }
            }
            assert forall|i: int| 0 < i < after.len() implies after[i - 1].last().surrogate + 1 != (
            #[trigger] after[i])[0].surrogate by {
                assert(after[i - 1] == before[i - 1]);
                if i < before.len() {
                    assert(after[i] == before[i]);
                } else {
                    assert(consecutive(before.last()));
                    assert(joined(before).last() == before.last().last());
                }
            }
        }
    }
}

/// A run is not empty and not longer than the stream, and its UUIDs take
/// their width each.
pub proof fn lemma_run_sizes(ordinals: Seq<NodeSurrogate>)
    ensures
        forall|i: int|
            0 <= i < id_runs(ordinals).len() ==> 0 < (#[trigger] id_runs(ordinals)[i]).len()
                <= ordinals.len() && uuid_bytes(id_runs(ordinals)[i]).len() == 16 * id_runs(
                ordinals,
            )[i].len(),
    decreases ordinals.len(),
{
    if ordinals.len() > 0 {
        let head = ordinals.drop_last();
        let last = ordinals.last();
        assert(ordinals =~= head.push(last));
        lemma_run_sizes(head);
        lemma_id_runs_push(head, last);
        let before = id_runs(head);
        let after = id_runs(ordinals);
        assert forall|i: int| 0 <= i < after.len() implies 0 < (#[trigger] after[i]).len()
            <= ordinals.len() && uuid_bytes(after[i]).len() == 16 * after[i].len() by {
            lemma_uuid_bytes(after[i], last);
            if i < after.len() - 1 {
                assert(after[i] == before[i]);
            } else if follows(head, last.surrogate) {
                assert(before.last() == before[before.len() - 1]);
            }
        }
    }
}

/// State of the encoder.
#[verifier::ext_equal]
pub struct WriterModel {
    pub generation: u64,
    pub bounds: V4OrdinalBounds,
    /// Mappings in UUID order.
    pub forward: Seq<ForwardRecord>,
    /// Mappings in identifier order.
    pub ordinals: Seq<NodeSurrogate>,
    /// Finished ranges: all runs of the mappings but the last.
    pub ranges: Seq<RangeView>,
    /// Installed artifacts.
    pub files: Seq<ArtifactFileView>,
    pub metrics: V4OrdinalBuildMetrics,
}

/// Mappings in identifier order, as mappings.
pub open spec fn as_mappings(ordinals: Seq<NodeSurrogate>) -> Seq<ForwardRecord> {
    Seq::new(
        ordinals.len(),
        |i: int| ForwardRecord { uuid: ordinals[i].uuid, node_id: ordinals[i].surrogate },
    )
}

/// The record of the range of a run.
pub open spec fn run_range(run: Seq<NodeSurrogate>, generation: u64) -> RangeView {
    range_view(run[0].surrogate, uuid_bytes(run), generation)
}

impl WriterModel {
    /// Whether the finished ranges are those of all runs but the last, and
    /// their artifacts are installed.
    pub open spec fn consistent(self) -> bool {
        let runs = id_runs(self.ordinals);
        &&& runs.len() == if self.ordinals.len() == 0 {
            0
        } else {
            self.ranges.len() + 1
        }
        &&& self.ordinals.len() == 0 ==> self.ranges.len() == 0
        &&& forall|i: int|
            0 <= i < self.ranges.len() ==> (#[trigger] self.ranges[i]) == run_range(
                runs[i],
                self.generation,
            ) && backed(self.files, self.ranges[i].artifact)
    }
}

/// Counters after a cancellation poll, or why work stops.
pub open spec fn polled(metrics: V4OrdinalBuildMetrics, cancelled: bool) -> Result<
    V4OrdinalBuildMetrics,
    Seq<char>,
> {
    if metrics.cancellation_polls == u64::MAX {
        Err("v4 cancellation poll count overflow"@)
    } else if cancelled {
        Err("v4 ordinal construction cancelled"@)
    } else {
        Ok(
            V4OrdinalBuildMetrics {
                cancellation_polls: (metrics.cancellation_polls + 1) as u64,
                ..metrics
            },
        )
    }
}

/// The state after one mapping in UUID order, or why it is refused.
pub open spec fn forward_step(before: WriterModel, uuid: u128, node_id: u64) -> Result<
    WriterModel,
    Seq<char>,
> {
    if uuid == 0 || node_id == 0 || (before.forward.len() > 0 && before.forward.last().uuid
        >= uuid) {
        Err("v4 forward identities are not canonical and increasing"@)
    } else {
        let forward = before.forward.push(ForwardRecord { uuid, node_id });
        Ok(
            WriterModel {
                forward,
                metrics: V4OrdinalBuildMetrics {
                    peak_temporary_bytes: larger(
                        before.metrics.peak_temporary_bytes,
                        (24 * forward.len()) as u64,
                    ),
                    ..before.metrics
                },
                ..before
            },
        )
    }
}

/// The state after the last run is finished as a range, or why it cannot be.
pub open spec fn close_range(before: WriterModel) -> Result<WriterModel, Seq<char>> {
    let run = id_runs(before.ordinals).last();
    let content = uuid_bytes(run);
    let range = run_range(run, before.generation);
    match range_fault(before.files, before.metrics, content, before.generation) {
        Some(text) => Err(text),
        None => Ok(
            WriterModel {
                ranges: before.ranges.push(range),
                files: installed(
                    before.files,
                    ArtifactFileView { descriptor: range.artifact, bytes: content },
                ),
                metrics: sealed_metrics(before.metrics, range.artifact.bytes)->Ok_0,
                ..before
            },
        ),
    }
}

/// The state once there is a run that an identifier continues or starts.
pub open spec fn run_opened(before: WriterModel, node_id: u64) -> Result<WriterModel, Seq<char>> {
    if follows(before.ordinals, node_id) {
        Ok(before)
    } else {
        let closed = if before.ordinals.len() > 0 {
            close_range(before)
        } else {
            Ok(before)
        };
        match closed {
            Err(text) => Err(text),
            Ok(closed) => if closed.ranges.len() >= closed.bounds.ranges {
                Err("v4 ordinal range inventory exceeds bound"@)
            } else {
                Ok(closed)
            },
        }
    }
}

/// Temporary bytes live while the last run is open.
pub open spec fn live_bytes(metrics: V4OrdinalBuildMetrics, forward: nat, open: nat) -> int {
    metrics.artifact_bytes + forward + open
}

/// The state after one mapping in identifier order, or why it is refused.
pub open spec fn ordinal_step(before: WriterModel, node_id: u64, uuid: u128) -> Result<
    WriterModel,
    Seq<char>,
> {
    if uuid == 0 || node_id == 0 || (before.ordinals.len() > 0
        && before.ordinals.last().surrogate >= node_id) {
        Err("v4 ordinal identities are not canonical and increasing"@)
    } else {
        match run_opened(before, node_id) {
            Err(text) => Err(text),
            Ok(opened) => {
                let ordinals = before.ordinals.push(NodeSurrogate { surrogate: node_id, uuid });
                let live = live_bytes(
                    opened.metrics,
                    24 * before.forward.len(),
                    16 * id_runs(ordinals).last().len(),
                );
                if live > u64::MAX {
                    Err("v4 live temporary byte count overflow"@)
                } else {
                    Ok(
                        WriterModel {
                            ordinals,
                            metrics: V4OrdinalBuildMetrics {
                                peak_temporary_bytes: larger(
                                    opened.metrics.peak_temporary_bytes,
                                    live as u64,
                                ),
                                ..opened.metrics
                            },
                            ..opened
                        },
                    )
                }
            },
        }
    }
}

/// Incremental encoder of a node stream.
pub struct V4OrdinalConstructionWriter {
    generation: u64,
    bounds: V4OrdinalBounds,
    forward: Vec<u8>,
    files: Vec<V4ArtifactFile>,
    ranges: Vec<V4OrdinalRange>,
    current: Option<V4OrdinalRangeWriter>,
    previous_forward_uuid: Option<u128>,
    previous_ordinal_node_id: u64,
    forward_count: u64,
    ordinal_count: u64,
    forward_commitment: Vec<u8>,
    ordinal_commitment: Vec<u8>,
    forward_commitment_two: Vec<u8>,
    ordinal_commitment_two: Vec<u8>,
    metrics: V4OrdinalBuildMetrics,
    mappings: Ghost<Seq<ForwardRecord>>,
    ordinals: Ghost<Seq<NodeSurrogate>>,
}

impl View for V4OrdinalConstructionWriter {
    type V = WriterModel;

    closed spec fn view(&self) -> WriterModel {
        WriterModel {
            generation: self.generation,
            bounds: self.bounds,
            forward: self.mappings@,
            ordinals: self.ordinals@,
            ranges: views(self.ranges@),
            files: views(self.files@),
            metrics: self.metrics,
        }
    }
}

spec fn committed(held: Seq<u8>, domain: u8, mappings: Seq<ForwardRecord>) -> bool {
    held.len() == 32 && be_value(held) == commitment(domain, mappings)
}

spec fn current_is(current: Option<V4OrdinalRangeWriter>, ordinals: Seq<NodeSurrogate>) -> bool {
    match current {
        None => ordinals.len() == 0,
        Some(writer) => {
            let run = id_runs(ordinals).last();
            &&& ordinals.len() > 0
            &&& writer.wf()
            &&& writer.first() == run[0].surrogate
            &&& writer.bytes() == uuid_bytes(run)
        },
    }
}

impl V4OrdinalConstructionWriter {
    closed spec fn forward_wf(self) -> bool {
        let mappings = self.mappings@;
        &&& self.forward@ == pack(mappings)
        &&& self.forward@.len() == 24 * mappings.len()
        &&& self.forward_count == mappings.len()
        &&& self.previous_forward_uuid == if mappings.len() == 0 {
            None
        } else {
            Some(mappings.last().uuid)
        }
        &&& committed(self.forward_commitment@, 0, mappings)
        &&& committed(self.forward_commitment_two@, 1, mappings)
    }

    closed spec fn ordinal_wf(self) -> bool {
        let ordinals = self.ordinals@;
        &&& self.ordinal_count == ordinals.len()
        &&& self.previous_ordinal_node_id == if ordinals.len() == 0 {
            0
        } else {
            ordinals.last().surrogate
        }
        &&& ordinals.len() <= self.previous_ordinal_node_id
        &&& committed(self.ordinal_commitment@, 0, as_mappings(ordinals))
        &&& committed(self.ordinal_commitment_two@, 1, as_mappings(ordinals))
        &&& current_is(self.current, ordinals)
    }

    /// Whether the encoder holds what it was given.
    pub closed spec fn wf(self) -> bool {
        &&& self.forward_wf()
        &&& self.ordinal_wf()
        &&& self@.consistent()
    }

    /// Start encoding a generation; at most as many ranges as `bounds`
    /// gives are written.
    pub fn start(generation: u64, bounds: V4OrdinalBounds) -> (writer: Result<
        V4OrdinalConstructionWriter,
        GfError,
    >)
        ensures
            match writer {
                Ok(writer) => {
                    &&& generation != 0
                    &&& writer.wf()
                    &&& writer@ == (WriterModel {
                        generation,
                        bounds,
                        forward: Seq::empty(),
                        ordinals: Seq::empty(),
                        ranges: Seq::empty(),
                        files: Seq::empty(),
                        metrics: V4OrdinalBuildMetrics {
                            peak_buffer_bytes: 196_608,
                            ..no_build_metrics()
                        },
                    })
                },
                Err(error) => generation == 0 && error.is_storage(
                    "v4 ordinal generation is zero"@,
                ),
            },
    {
        if generation == 0 {
            return Err(storage_err("v4 ordinal generation is zero"));
        }
        let mut metrics: V4OrdinalBuildMetrics = V4OrdinalBuildMetrics::none();
        metrics.peak_buffer_bytes = 196_608;
        let writer = V4OrdinalConstructionWriter {
            generation,
            bounds,
            forward: Vec::new(),
            files: Vec::new(),
            ranges: Vec::new(),
            current: None,
            previous_forward_uuid: None,
            previous_ordinal_node_id: 0,
            forward_count: 0,
            ordinal_count: 0,
            forward_commitment: empty_commitment(0),
            ordinal_commitment: empty_commitment(0),
            forward_commitment_two: empty_commitment(1),
            ordinal_commitment_two: empty_commitment(1),
            metrics,
            mappings: Ghost(Seq::empty()),
            ordinals: Ghost(Seq::empty()),
        };
        proof {
            assert(writer.forward@ =~= pack(Seq::<ForwardRecord>::empty()));
            assert(as_mappings(Seq::empty()) =~= Seq::<ForwardRecord>::empty());
            assert(views(writer.ranges@) =~= Seq::<RangeView>::empty());
            assert(views(writer.files@) =~= Seq::<ArtifactFileView>::empty());
        }
        Ok(writer)
    }

    /// Record a cancellation poll and its answer.
    fn poll_cancelled(self, cancelled: bool) -> (writer: Result<
        V4OrdinalConstructionWriter,
        GfError,
    >)
        requires
            self.wf(),
        ensures
            ({
                let outcome = polled(self@.metrics, cancelled);
                match writer {
                    Ok(writer) => outcome is Ok && writer.wf() && writer@ == (WriterModel {
                        metrics: outcome->Ok_0,
                        ..self@
                    }),
                    Err(error) => outcome is Err && error.is_storage(outcome->Err_0),
                }
            }),
    {
        let polls: u64 = match self.metrics.cancellation_polls.checked_add(1) {
            Some(polls) => polls,
            None => {
                return Err(storage_err("v4 cancellation poll count overflow"));
            },
        };
        if cancelled {
            return Err(storage_err("v4 ordinal construction cancelled"));
        }
        let mut writer: V4OrdinalConstructionWriter = self;
        writer.metrics.cancellation_polls = polls;
        Ok(writer)
    }

    fn push_forward_inner(self, uuid: u128, node_id: u64) -> (writer: Result<
        V4OrdinalConstructionWriter,
        GfError,
    >)
        requires
            self.wf(),
        ensures
            ({
                let outcome = forward_step(self@, uuid, node_id);
                match writer {
                    Ok(writer) => writer.wf() && outcome == Ok::<WriterModel, Seq<char>>(writer@),
                    Err(error) => outcome is Err && error.is_storage(outcome->Err_0),
                }
            }),
    {
        let late: bool = match self.previous_forward_uuid {
            Some(previous) => previous >= uuid,
            None => false,
        };
        if uuid == 0 || late || node_id == 0 {
            return Err(storage_err("v4 forward identities are not canonical and increasing"));
        }
        let mut writer: V4OrdinalConstructionWriter = self;
        let record = ForwardRecord { uuid, node_id };
        let ghost mappings = writer.mappings@;
        let held: usize = writer.forward.len();
        record.push(&mut writer.forward);
        writer.forward_commitment = add_v4_mapping_commitment(
            &writer.forward_commitment,
            0,
            record,
            Ghost(mappings),
        );
        writer.forward_commitment_two = add_v4_mapping_commitment(
            &writer.forward_commitment_two,
            1,
            record,
            Ghost(mappings),
        );
        writer.forward_count = writer.forward_count + 1;
        writer.previous_forward_uuid = Some(uuid);
        writer.mappings = Ghost(mappings.push(record));
        let bytes: u64 = writer.forward.len() as u64;
        writer.metrics.peak_temporary_bytes = max_of(writer.metrics.peak_temporary_bytes, bytes);
        proof {
            lemma_pack_push(mappings, record);
            lemma_be_bytes_len(uuid as nat, 16);
            lemma_be_bytes_len(node_id as nat, 8);
        }
        Ok(writer)
    }

    /// Close the open range, if the identifier does not continue it, and open
    /// one for it.
    fn open_range(self, node_id: u64) -> (writer: Result<
        (V4OrdinalConstructionWriter, V4OrdinalRangeWriter),
        GfError,
    >)
        requires
            self.wf(),
            node_id > self.previous_ordinal_node_id,
        ensures
            ({
                let outcome = run_opened(self@, node_id);
                match writer {
                    Ok((writer, open)) => {
                        &&& outcome is Ok
                        &&& outcome == Ok::<WriterModel, Seq<char>>(writer@)
                        &&& writer == (V4OrdinalConstructionWriter {
                            files: writer.files,
                            ranges: writer.ranges,
                            metrics: writer.metrics,
                            current: None,
                            ..self
                        })
                        &&& open.wf()
                        &&& if follows(self.ordinals@, node_id) {
                            let run = id_runs(self.ordinals@).last();
                            open.first() == run[0].surrogate && open.bytes() == uuid_bytes(run)
                        } else {
                            open.first() == node_id && open.bytes() == Seq::<u8>::empty()
                        }
                        &&& self@.ranges.len() <= writer@.ranges.len()
                        &&& forall|i: int|
                            0 <= i < writer@.ranges.len() ==> (#[trigger] writer@.ranges[i])
                                == run_range(id_runs(self.ordinals@)[i], self.generation)
                                && backed(writer@.files, writer@.ranges[i].artifact)
                        &&& writer@.ranges.len() == if self.ordinals@.len() == 0 {
                            0
                        } else if follows(self.ordinals@, node_id) {
                            self@.ranges.len()
                        } else {
                            self@.ranges.len() + 1
                        }
                    },
                    Err(error) => outcome is Err && error.is_storage(outcome->Err_0),
                }
            }),
    {
        let ghost before = self@;
        let ghost runs = id_runs(self.ordinals@);
        let mut writer: V4OrdinalConstructionWriter = self;
        let current: Option<V4OrdinalRangeWriter> = writer.current;
        writer.current = None;
        match current {
            Some(open) => {
                if writer.previous_ordinal_node_id + 1 == node_id {
                    return Ok((writer, open));
                }
                let ghost run = runs.last();
                let ghost range = run_range(run, writer.generation);
                let _len: u64 = open.len();
                assert(uuid_bytes(run).len() == _len);
                let ghost old_files = views(writer.files@);
                proof {
                    lemma_id_runs_push(self.ordinals@, NodeSurrogate { surrogate: 0, uuid: 0 });
                }
                match finish_streamed_v4_range(
                    writer.generation,
                    open,
                    &mut writer.files,
                    &mut writer.metrics,
                ) {
                    Ok(finished) => {
                        let ghost ranges = writer.ranges@;
                        proof {
                            let file = ArtifactFileView {
                                descriptor: range.artifact,
                                bytes: uuid_bytes(run),
                            };
                            lemma_installed(old_files, file);
                        }
                        writer.ranges.push(finished);
                        assert(views(writer.ranges@) =~= views(ranges).push(range));
                        proof {
                            assert forall|i: int| 0 <= i < writer@.ranges.len() implies (
                            #[trigger] writer@.ranges[i]) == run_range(runs[i], self.generation)
                                && backed(writer@.files, writer@.ranges[i].artifact) by {
                                if i < before.ranges.len() {
                                    assert(writer@.ranges[i] == before.ranges[i]);
                                }
                            }
                        }
                    },
                    Err(error) => {
                        return Err(error);
                    },
                }
            },
            None => {},
        }
        if writer.ranges.len() >= writer.bounds.ranges {
            return Err(storage_err("v4 ordinal range inventory exceeds bound"));
        }
        Ok((writer, V4OrdinalRangeWriter::new(node_id)))
    }

    fn push_ordinal_inner(self, node_id: u64, uuid: u128) -> (writer: Result<
        V4OrdinalConstructionWriter,
        GfError,
    >)
        requires
            self.wf(),
        ensures
            ({
                let outcome = ordinal_step(self@, node_id, uuid);
                match writer {
                    Ok(writer) => writer.wf() && outcome == Ok::<WriterModel, Seq<char>>(writer@),
                    Err(error) => outcome is Err && error.is_storage(outcome->Err_0),
                }
            }),
    {
        if uuid == 0 || node_id == 0 || node_id <= self.previous_ordinal_node_id {
            return Err(storage_err("v4 ordinal identities are not canonical and increasing"));
        }
        let ghost ordinals = self.ordinals@;
        let ghost last = NodeSurrogate { surrogate: node_id, uuid };
        let ghost runs = id_runs(ordinals);
        let ghost next = id_runs(ordinals.push(last));
        proof {
            lemma_id_runs_push(ordinals, last);
            if follows(ordinals, node_id) {
                lemma_uuid_bytes(runs.last(), last);
            } else {
                lemma_uuid_bytes(Seq::empty(), last);
                assert(Seq::<NodeSurrogate>::empty().push(last) =~= seq![last]);
            }
            lemma_uuid_bytes(next.last(), last);
        }
        let (mut writer, mut open): (V4OrdinalConstructionWriter, V4OrdinalRangeWriter) =
            match self.open_range(node_id) {
            Ok(opened) => opened,
            Err(error) => {
                return Err(error);
            },
        };
        open.push(uuid);
        let mapping = ForwardRecord { uuid, node_id };
        proof {
            assert(as_mappings(ordinals.push(last)) =~= as_mappings(ordinals).push(mapping));
            assert(open.bytes() =~= uuid_bytes(next.last()));
        }
        writer.ordinal_commitment = add_v4_mapping_commitment(
            &writer.ordinal_commitment,
            0,
            mapping,
            Ghost(as_mappings(ordinals)),
        );
        writer.ordinal_commitment_two = add_v4_mapping_commitment(
            &writer.ordinal_commitment_two,
            1,
            mapping,
            Ghost(as_mappings(ordinals)),
        );
        writer.ordinal_count = writer.ordinal_count + 1;
        writer.previous_ordinal_node_id = node_id;
        writer.ordinals = Ghost(ordinals.push(last));
        let open_bytes: u64 = open.len();
        let forward_bytes: u64 = writer.forward.len() as u64;
        let live: u64 = match writer.metrics.artifact_bytes.checked_add(forward_bytes) {
            Some(held) => match held.checked_add(open_bytes) {
                Some(live) => live,
                None => {
                    return Err(storage_err("v4 live temporary byte count overflow"));
                },
            },
            None => {
                return Err(storage_err("v4 live temporary byte count overflow"));
            },
        };
        writer.current = Some(open);
        writer.metrics.peak_temporary_bytes = max_of(writer.metrics.peak_temporary_bytes, live);
        Ok(writer)
    }
}

/// The state after one mapping of a stream in both orders, or why it is
/// refused.
pub open spec fn pair_step(before: WriterModel, uuid: u128, node_id: u64) -> Result<
    WriterModel,
    Seq<char>,
> {
    match forward_step(before, uuid, node_id) {
        Err(text) => Err(text),
        Ok(next) => ordinal_step(next, node_id, uuid),
    }
}

/// The state after a poll and then a step, or why work stops.
pub open spec fn after_poll(
    before: WriterModel,
    cancelled: bool,
    step: spec_fn(WriterModel) -> Result<WriterModel, Seq<char>>,
) -> Result<WriterModel, Seq<char>> {
    match polled(before.metrics, cancelled) {
        Err(text) => Err(text),
        Ok(metrics) => step(WriterModel { metrics, ..before }),
    }
}

impl V4OrdinalConstructionWriter {
    /// Encode the next mapping of a stream that is in both orders.
    pub fn push_pair(self, uuid: u128, node_id: u64, cancelled: bool) -> (writer: Result<
        V4OrdinalConstructionWriter,
        GfError,
    >)
        requires
            self.wf(),
        ensures
            ({
                let outcome = after_poll(
                    self@,
                    cancelled,
                    |polled: WriterModel| pair_step(polled, uuid, node_id),
                );
                match writer {
                    Ok(writer) => writer.wf() && outcome == Ok::<WriterModel, Seq<char>>(writer@),
                    Err(error) => outcome is Err && error.is_storage(outcome->Err_0),
                }
            }),
    {
        match self.poll_cancelled(cancelled) {
            Ok(writer) => match writer.push_forward_inner(uuid, node_id) {
                Ok(writer) => writer.push_ordinal_inner(node_id, uuid),
                Err(error) => Err(error),
            },
            Err(error) => Err(error),
        }
    }

    /// Encode the next mapping in UUID order.
    pub fn push_forward(self, uuid: u128, node_id: u64, cancelled: bool) -> (writer: Result<
        V4OrdinalConstructionWriter,
        GfError,
    >)
        requires
            self.wf(),
        ensures
            ({
                let outcome = after_poll(
                    self@,
                    cancelled,
                    |polled: WriterModel| forward_step(polled, uuid, node_id),
                );
                match writer {
                    Ok(writer) => writer.wf() && outcome == Ok::<WriterModel, Seq<char>>(writer@),
                    Err(error) => outcome is Err && error.is_storage(outcome->Err_0),
                }
            }),
    {
        match self.poll_cancelled(cancelled) {
            Ok(writer) => writer.push_forward_inner(uuid, node_id),
            Err(error) => Err(error),
        }
    }

    /// Encode the next mapping in identifier order.
    pub fn push_ordinal(self, node_id: u64, uuid: u128, cancelled: bool) -> (writer: Result<
        V4OrdinalConstructionWriter,
        GfError,
    >)
        requires
            self.wf(),
        ensures
            ({
                let outcome = after_poll(
                    self@,
                    cancelled,
                    |polled: WriterModel| ordinal_step(polled, node_id, uuid),
                );
                match writer {
                    Ok(writer) => writer.wf() && outcome == Ok::<WriterModel, Seq<char>>(writer@),
                    Err(error) => outcome is Err && error.is_storage(outcome->Err_0),
                }
            }),
    {
        match self.poll_cancelled(cancelled) {
            Ok(writer) => writer.push_ordinal_inner(node_id, uuid),
            Err(error) => Err(error),
        }
    }
}

/// Whether the two projections of the mappings are seen to differ.
pub open spec fn mismatched(model: WriterModel) -> bool {
    let ordinals = as_mappings(model.ordinals);
    ||| model.forward.len() != model.ordinals.len()
    ||| commitment(0, model.forward) != commitment(0, ordinals)
    ||| commitment(1, model.forward) != commitment(1, ordinals)
}

/// Two projections of the same mappings are never refused as different.
pub proof fn lemma_matching_projections(model: WriterModel)
    requires
        model.forward.to_multiset() == as_mappings(model.ordinals).to_multiset(),
    ensures
        !mismatched(model),
{
    broadcast use vstd::seq_lib::group_to_multiset_ensures;

    let ordinals = as_mappings(model.ordinals);
    assert(model.forward.len() == model.forward.to_multiset().len());
    assert(ordinals.len() == ordinals.to_multiset().len());
    lemma_commitment_order(0, model.forward, ordinals);
    lemma_commitment_order(1, model.forward, ordinals);
}

/// The artifacts of a finished stream with the manifest over them.
#[derive(Debug, PartialEq, Eq)]
pub struct V4ConstructionArtifactBundle {
    /// Inventory of the artifacts.
    pub manifest: V4OrdinalIdentityManifest,
    /// Counters of the build.
    pub metrics: V4OrdinalBuildMetrics,
    /// The artifacts.
    pub files: Vec<V4ArtifactFile>,
}

/// Model of a [`V4ConstructionArtifactBundle`].
#[verifier::ext_equal]
pub struct BundleModel {
    pub manifest: OrdinalManifestView,
    pub metrics: V4OrdinalBuildMetrics,
    pub files: Seq<ArtifactFileView>,
}

impl View for V4ConstructionArtifactBundle {
    type V = BundleModel;

    open spec fn view(&self) -> BundleModel {
        BundleModel {
            manifest: self.manifest@,
            metrics: self.metrics,
            files: views(self.files@),
        }
    }
}

/// Directory and counters after one more artifact, or why it is refused.
pub open spec fn sealed_state(
    files: Seq<ArtifactFileView>,
    metrics: V4OrdinalBuildMetrics,
    artifact: ArtifactView,
    content: Seq<u8>,
) -> Result<(Seq<ArtifactFileView>, V4OrdinalBuildMetrics), Seq<char>> {
    match finish_fault(files, metrics, artifact) {
        Some(text) => Err(text),
        None => Ok(
            (
                installed(files, ArtifactFileView { descriptor: artifact, bytes: content }),
                sealed_metrics(metrics, artifact.bytes)->Ok_0,
            ),
        ),
    }
}

/// The descriptor of the forward run of some mappings.
pub open spec fn forward_view(mappings: Seq<ForwardRecord>, generation: u64) -> ArtifactView {
    sealed_view(
        pack(mappings),
        "forward-v4"@,
        generation,
        V4OrdinalArtifactKind::ForwardIdentities,
    )
}

/// What a finished stream leaves, or why it is refused.
pub open spec fn finish_outcome(model: WriterModel) -> Result<BundleModel, Seq<char>> {
    let counted = WriterModel {
        metrics: V4OrdinalBuildMetrics {
            input_records: model.forward.len() as u64,
            ..model.metrics
        },
        ..model
    };
    let closed = if model.ordinals.len() > 0 {
        close_range(counted)
    } else {
        Ok(counted)
    };
    let forward = forward_view(model.forward, model.generation);
    let tombstones = tombstones_view(Seq::empty(), model.generation);
    if mismatched(model) {
        Err("v4 forward and ordinal projections describe different mappings"@)
    } else {
        match closed {
            Err(text) => Err(text),
            Ok(closed) => match sealed_state(
                closed.files,
                closed.metrics,
                forward,
                pack(model.forward),
            ) {
                Err(text) => Err(text),
                Ok((files, metrics)) => match sealed_state(
                    files,
                    metrics,
                    tombstones.artifact,
                    Seq::empty(),
                ) {
                    Err(text) => Err(text),
                    Ok((files, metrics)) => {
                        let manifest = OrdinalManifestView {
                            format_version: ORDINAL_IDENTITY_V4,
                            topology_generation: model.generation,
                            forward: seq![forward],
                            ranges: closed.ranges,
                            tombstones: seq![tombstones],
                        };
                        let metrics = V4OrdinalBuildMetrics {
                            ranges: closed.ranges.len() as u64,
                            ..metrics
                        };
                        admitted(
                            BundleModel { manifest, metrics, files },
                            manifest,
                            model.bounds.manifest_bytes,
                        )
                    },
                },
            },
        }
    }
}

/// Whether every artifact of a manifest is installed with its contents.
pub open spec fn all_backed(
    files: Seq<ArtifactFileView>,
    manifest: OrdinalManifestView,
) -> bool {
    forall|i: int|
        0 <= i < manifest_artifacts(manifest).len() ==> backed(
            files,
            #[trigger] manifest_artifacts(manifest)[i],
        )
}

fn seal_and_install(
    files: &mut Vec<V4ArtifactFile>,
    content: Vec<u8>,
    prefix: &str,
    generation: u64,
    kind: V4OrdinalArtifactKind,
    metrics: &mut V4OrdinalBuildMetrics,
) -> (artifact: Result<V4OrdinalArtifact, GfError>)
    ensures
        ({
            let view = sealed_view(content@, prefix@, generation, kind);
            let outcome = sealed_state(views(old(files)@), *old(metrics), view, content@);
            match artifact {
                Ok(artifact) => {
                    &&& artifact@ == view
                    &&& outcome == Ok::<
                        (Seq<ArtifactFileView>, V4OrdinalBuildMetrics),
                        Seq<char>,
                    >((views(final(files)@), *final(metrics)))
                    &&& backed(views(final(files)@), view)
                    &&& forall|other: ArtifactView|
                        backed(views(old(files)@), other) ==> #[trigger] backed(
                            views(final(files)@),
                            other,
                        )
                },
                Err(error) => outcome is Err && error.is_storage(outcome->Err_0),
            }
        }),
{
    let ghost before = views(files@);
    let ghost view = sealed_view(content@, prefix@, generation, kind);
    let ghost bytes = content@;
    let _len: u64 = content.len() as u64;
    match finish_streamed_v4_artifact(files, content, prefix, generation, kind, metrics) {
        Ok(artifact) => {
            proof {
                lemma_installed(before, ArtifactFileView { descriptor: view, bytes });
            }
            Ok(artifact)
        },
        Err(error) => Err(error),
    }
}

impl V4OrdinalConstructionWriter {
    /// Finish the stream: both projections must describe the same mappings, and
    /// readers must admit the manifest.
    #[verifier::rlimit(60)]
    pub fn finish(self) -> (bundle: Result<V4ConstructionArtifactBundle, GfError>)
        requires
            self.wf(),
        ensures
            ({
                let outcome = finish_outcome(self@);
                let runs = id_runs(self@.ordinals);
                match bundle {
                    Ok(bundle) => {
                        &&& outcome == Ok::<BundleModel, Seq<char>>(bundle@)
                        &&& bundle@.manifest.ranges.len() == runs.len()
                        &&& forall|i: int|
                            0 <= i < runs.len() ==> (#[trigger] bundle@.manifest.ranges[i])
                                == run_range(runs[i], self@.generation)
                        &&& all_backed(bundle@.files, bundle@.manifest)
                    },
                    Err(error) => outcome is Err && error.is_storage(outcome->Err_0),
                }
            }),
    {
        let ghost model = self@;
        let ghost runs = id_runs(self.ordinals@);
        proof {
            lemma_be_order(self.forward_commitment@, self.ordinal_commitment@);
            lemma_be_order(self.forward_commitment_two@, self.ordinal_commitment_two@);
        }
        if self.forward_count != self.ordinal_count || !same_bytes(
            self.forward_commitment.as_slice(),
            self.ordinal_commitment.as_slice(),
        ) || !same_bytes(
            self.forward_commitment_two.as_slice(),
            self.ordinal_commitment_two.as_slice(),
        ) {
            return Err(
                storage_err("v4 forward and ordinal projections describe different mappings"),
            );
        }
        let maximum: u64 = self.bounds.manifest_bytes;
        let mut writer: V4OrdinalConstructionWriter = self;
        writer.metrics.input_records = writer.forward_count;
        let generation: u64 = writer.generation;
        let mut files: Vec<V4ArtifactFile> = writer.files;
        let mut ranges: Vec<V4OrdinalRange> = writer.ranges;
        let mut metrics: V4OrdinalBuildMetrics = writer.metrics;
        match writer.current {
            Some(open) => {
                let ghost run = runs.last();
                let ghost range = run_range(run, generation);
                let ghost old_files = views(files@);
                let ghost old_ranges = ranges@;
                let _len: u64 = open.len();
                assert(uuid_bytes(run).len() == _len);
                match finish_streamed_v4_range(generation, open, &mut files, &mut metrics) {
                    Ok(finished) => {
                        proof {
                            lemma_installed(
                                old_files,
                                ArtifactFileView {
                                    descriptor: range.artifact,
                                    bytes: uuid_bytes(run),
                                },
                            );
                        }
                        ranges.push(finished);
                        assert(views(ranges@) =~= views(old_ranges).push(range));
                    },
                    Err(error) => {
                        return Err(error);
                    },
                }
            },
            None => {},
        }
        proof {
            assert(views(ranges@).len() == runs.len());
            assert forall|i: int| 0 <= i < runs.len() implies (#[trigger] views(ranges@)[i])
                == run_range(runs[i], generation) && backed(
                views(files@),
                views(ranges@)[i].artifact,
            ) by {
                if i < model.ranges.len() {
                    assert(views(ranges@)[i] == model.ranges[i]);
                }
            }
        }
        let ghost range_views = views(ranges@);
        let forward: V4OrdinalArtifact = match seal_and_install(
            &mut files,
            writer.forward,
            "forward-v4",
            generation,
            V4OrdinalArtifactKind::ForwardIdentities,
            &mut metrics,
        ) {
            Ok(artifact) => artifact,
            Err(error) => {
                return Err(error);
            },
        };
        let nothing: Vec<u8> = Vec::new();
        proof {
            assert(nothing@ =~= pack(Seq::<NodeTombstone>::empty()));
        }
        let tombstone: V4OrdinalArtifact = match seal_and_install(
            &mut files,
            nothing,
            "tombstones-v4",
            generation,
            V4OrdinalArtifactKind::NodeTombstones,
            &mut metrics,
        ) {
            Ok(artifact) => artifact,
            Err(error) => {
                return Err(error);
            },
        };
        metrics.ranges = ranges.len() as u64;
        let mut forwards: Vec<V4OrdinalArtifact> = Vec::new();
        forwards.push(forward);
        let mut tombstones: Vec<V4OrdinalTombstones> = Vec::new();
        tombstones.push(
            V4OrdinalTombstones { generation, artifact: tombstone, blocks: Vec::new() },
        );
        let manifest = V4OrdinalIdentityManifest {
            format_version: ORDINAL_IDENTITY_V4,
            topology_generation: generation,
            forward_identities: forwards,
            ordinal_ranges: ranges,
            tombstones,
        };
        proof {
            let empty = tombstones_view(Seq::empty(), generation);
            assert(views(manifest.forward_identities@) =~= seq![forward_view(
                model.forward,
                generation,
            )]);
            assert(tombstones@[0]@.blocks =~= empty.blocks);
            assert(tombstones@[0]@ == empty);
            assert(views(manifest.tombstones@) =~= seq![empty]);
            let all = manifest_artifacts(manifest@);
            assert forall|i: int| 0 <= i < all.len() implies backed(
                views(files@),
                #[trigger] all[i],
            ) by {
                if i == 0 {
                    assert(all[i] == forward_view(model.forward, generation));
                } else if i <= range_views.len() {
                    assert(all[i] == range_views[i - 1].artifact);
                } else {
                    assert(all[i] == empty.artifact);
                }
            }
        }
        match admit_v4_construction_manifest(&manifest, maximum) {
            Ok(()) => Ok(V4ConstructionArtifactBundle { manifest, metrics, files }),
            Err(error) => Err(error),
        }
    }
}

/// The state after a forward stream, or why it is refused.
pub open spec fn forward_stream(before: WriterModel, records: Seq<ForwardRecord>) -> Result<
    WriterModel,
    Seq<char>,
>
    decreases records.len(),
{
    if records.len() == 0 {
        Ok(before)
    } else {
        match forward_stream(before, records.drop_last()) {
            Err(text) => Err(text),
            Ok(next) => after_poll(
                next,
                false,
                |polled: WriterModel|
                    forward_step(polled, records.last().uuid, records.last().node_id),
            ),
        }
    }
}

/// The state after an ordinal stream, or why it is refused.
pub open spec fn ordinal_stream(before: WriterModel, records: Seq<NodeSurrogate>) -> Result<
    WriterModel,
    Seq<char>,
>
    decreases records.len(),
{
    if records.len() == 0 {
        Ok(before)
    } else {
        match ordinal_stream(before, records.drop_last()) {
            Err(text) => Err(text),
            Ok(next) => after_poll(
                next,
                false,
                |polled: WriterModel|
                    ordinal_step(polled, records.last().surrogate, records.last().uuid),
            ),
        }
    }
}

/// The state of an encoder that has encoded nothing.
pub open spec fn fresh_writer(generation: u64, bounds: V4OrdinalBounds) -> WriterModel {
    WriterModel {
        generation,
        bounds,
        forward: Seq::empty(),
        ordinals: Seq::empty(),
        ranges: Seq::empty(),
        files: Seq::empty(),
        metrics: V4OrdinalBuildMetrics { peak_buffer_bytes: 196_608, ..no_build_metrics() },
    }
}

/// What encoding both projections of some mappings leaves, or why they are
/// refused.
pub open spec fn stream_outcome(
    generation: u64,
    bounds: V4OrdinalBounds,
    forward: Seq<ForwardRecord>,
    ordinals: Seq<NodeSurrogate>,
) -> Result<BundleModel, Seq<char>> {
    if generation == 0 {
        Err("v4 ordinal generation is zero"@)
    } else {
        match forward_stream(fresh_writer(generation, bounds), forward) {
            Err(text) => Err(text),
            Ok(next) => match ordinal_stream(next, ordinals) {
                Err(text) => Err(text),
                Ok(last) => finish_outcome(last),
            },
        }
    }
}

proof fn lemma_forward_fails(before: WriterModel, records: Seq<ForwardRecord>, n: int)
    requires
        0 <= n <= records.len(),
        forward_stream(before, records.take(n)) is Err,
    ensures
        forward_stream(before, records) == forward_stream(before, records.take(n)),
    decreases records.len(),
{
    if n < records.len() {
        assert(records.drop_last().take(n) =~= records.take(n));
        lemma_forward_fails(before, records.drop_last(), n);
    } else {
        assert(records.take(n) =~= records);
    }
}

proof fn lemma_ordinal_fails(before: WriterModel, records: Seq<NodeSurrogate>, n: int)
    requires
        0 <= n <= records.len(),
        ordinal_stream(before, records.take(n)) is Err,
    ensures
        ordinal_stream(before, records) == ordinal_stream(before, records.take(n)),
    decreases records.len(),
{
    if n < records.len() {
        assert(records.drop_last().take(n) =~= records.take(n));
        lemma_ordinal_fails(before, records.drop_last(), n);
    } else {
        assert(records.take(n) =~= records);
    }
}

/// The ranges of some runs.
pub open spec fn run_ranges(runs: Seq<Seq<NodeSurrogate>>, generation: u64) -> Seq<RangeView> {
    Seq::new(runs.len(), |i: int| run_range(runs[i], generation))
}

proof fn lemma_ordinal_ranges(before: WriterModel, records: Seq<NodeSurrogate>)
    requires
        before.ordinals.len() == 0,
        before.ranges.len() == 0,
        ordinal_stream(before, records) is Ok,
    ensures
        ({
            let after = ordinal_stream(before, records)->Ok_0;
            &&& after.ordinals == records
            &&& after.generation == before.generation
            &&& records.len() == 0 ==> after.ranges.len() == 0
            &&& records.len() > 0 ==> id_runs(records).len() > 0 && after.ranges == run_ranges(
                id_runs(records).drop_last(),
                before.generation,
            )
        }),
    decreases records.len(),
{
    if records.len() > 0 {
        let head = records.drop_last();
        let last = records.last();
        lemma_ordinal_ranges(before, head);
        lemma_id_runs_push(head, last);
        assert(records =~= head.push(last));
        let next = ordinal_stream(before, head)->Ok_0;
        let polled = WriterModel { metrics: polled(next.metrics, false)->Ok_0, ..next };
        let after = ordinal_step(polled, last.surrogate, last.uuid)->Ok_0;
        assert(ordinal_stream(before, records) == Ok::<WriterModel, Seq<char>>(after));
        assert(after.ordinals =~= records);
        let runs = id_runs(head);
        if follows(head, last.surrogate) {
            assert(id_runs(records).drop_last() =~= runs.drop_last());
        } else {
            assert(id_runs(records).drop_last() =~= runs);
            if head.len() > 0 {
                assert(runs =~= runs.drop_last().push(runs.last()));
                assert(run_ranges(runs, before.generation) =~= run_ranges(
                    runs.drop_last(),
                    before.generation,
                ).push(run_range(runs.last(), before.generation)));
            } else {
                assert(run_ranges(runs, before.generation) =~= after.ranges);
            }
        }
    }
}

proof fn lemma_forward_leaves(before: WriterModel, records: Seq<ForwardRecord>)
    requires
        forward_stream(before, records) is Ok,
    ensures
        ({
            let after = forward_stream(before, records)->Ok_0;
            &&& after.ordinals == before.ordinals
            &&& after.ranges == before.ranges
            &&& after.generation == before.generation
        }),
    decreases records.len(),
{
    if records.len() > 0 {
        lemma_forward_leaves(before, records.drop_last());
    }
}

/// The ranges of an encoded stream are those of its runs.
pub proof fn lemma_stream_ranges(
    generation: u64,
    bounds: V4OrdinalBounds,
    forward: Seq<ForwardRecord>,
    ordinals: Seq<NodeSurrogate>,
)
    requires
        stream_outcome(generation, bounds, forward, ordinals) is Ok,
    ensures
        stream_outcome(generation, bounds, forward, ordinals)->Ok_0.manifest.ranges
            == run_ranges(id_runs(ordinals), generation),
{
    let fresh = fresh_writer(generation, bounds);
    lemma_forward_leaves(fresh, forward);
    let next = forward_stream(fresh, forward)->Ok_0;
    lemma_ordinal_ranges(next, ordinals);
    let runs = id_runs(ordinals);
    let done = stream_outcome(generation, bounds, forward, ordinals)->Ok_0.manifest.ranges;
    if ordinals.len() > 0 {
        assert(runs =~= runs.drop_last().push(runs.last()));
        assert(done =~= run_ranges(runs.drop_last(), generation).push(
            run_range(runs.last(), generation),
        ));
        assert(run_ranges(runs, generation) =~= run_ranges(runs.drop_last(), generation).push(
            run_range(runs.last(), generation),
        ));
    } else {
        assert(done =~= run_ranges(runs, generation));
    }
}

/// The UUIDs of a run stand one after another.
pub proof fn lemma_uuid_bytes_at(run: Seq<NodeSurrogate>, place: int)
    requires
        0 <= place < run.len(),
    ensures
        uuid_bytes(run).len() == 16 * run.len(),
        be_value(uuid_bytes(run).subrange(16 * place, 16 * place + 16)) == run[place].uuid,
    decreases run.len(),
{
    let head = run.drop_last();
    let last = run.last();
    lemma_uuid_bytes(head, last);
    assert(run =~= head.push(last));
    lemma_be_bytes_len(last.uuid as nat, 16);
    let bytes = uuid_bytes(run);
    if place < head.len() {
        lemma_uuid_bytes_at(head, place);
        assert(bytes.subrange(16 * place, 16 * place + 16) =~= uuid_bytes(head).subrange(
            16 * place,
            16 * place + 16,
        ));
    } else {
        lemma_pow256_words();
        lemma_be_value_of_bytes(last.uuid as nat, 16);
        assert(bytes.subrange(16 * place, 16 * place + 16) =~= be_bytes(last.uuid as nat, 16));
    }
}

/// Encode both projections of some mappings.
pub fn stage_v4_ordinal_bundle(
    generation: u64,
    bounds: V4OrdinalBounds,
    forward: &Vec<ForwardRecord>,
    ordinals: &Vec<NodeSurrogate>,
) -> (bundle: Result<V4ConstructionArtifactBundle, GfError>)
    ensures
        ({
            let outcome = stream_outcome(generation, bounds, forward@, ordinals@);
            let runs = id_runs(ordinals@);
            match bundle {
                Ok(bundle) => {
                    &&& outcome == Ok::<BundleModel, Seq<char>>(bundle@)
                    &&& bundle@.manifest == (OrdinalManifestView {
                        format_version: ORDINAL_IDENTITY_V4,
                        topology_generation: generation,
                        forward: seq![forward_view(forward@, generation)],
                        ranges: Seq::new(
                            runs.len(),
                            |i: int| run_range(runs[i], generation),
                        ),
                        tombstones: seq![tombstones_view(Seq::empty(), generation)],
                    })
                    &&& all_backed(bundle@.files, bundle@.manifest)
                },
                Err(error) => outcome is Err && error.is_storage(outcome->Err_0),
            }
        }),
{
    let mut writer: V4OrdinalConstructionWriter = match V4OrdinalConstructionWriter::start(
        generation,
        bounds,
    ) {
        Ok(writer) => writer,
        Err(error) => {
            return Err(error);
        },
    };
    let ghost fresh = fresh_writer(generation, bounds);
    let mut i: usize = 0;
    assert(forward@.take(0) =~= Seq::<ForwardRecord>::empty());
    while i < forward.len()
        invariant
            i <= forward@.len(),
            generation != 0,
            writer.wf(),
            fresh == fresh_writer(generation, bounds),
            forward_stream(fresh, forward@.take(i as int)) == Ok::<WriterModel, Seq<char>>(
                writer@,
            ),
            writer@.forward == forward@.take(i as int),
            writer@.ordinals.len() == 0,
            writer@.generation == generation,
        decreases forward.len() - i,
    {
        assert(forward@.take(i + 1).drop_last() =~= forward@.take(i as int));
        assert(forward@.take(i + 1) =~= forward@.take(i as int).push(forward@[i as int]));
        writer =
        match writer.push_forward(forward[i].uuid, forward[i].node_id, false) {
            Ok(writer) => writer,
            Err(error) => {
                proof {
                    lemma_forward_fails(fresh, forward@, i + 1);
                }
                return Err(error);
            },
        };
        i = i + 1;
    }
    assert(forward@.take(i as int) =~= forward@);
    let ghost middle = writer@;
    let mut k: usize = 0;
    assert(ordinals@.take(0) =~= Seq::<NodeSurrogate>::empty());
    while k < ordinals.len()
        invariant
            k <= ordinals@.len(),
            generation != 0,
            writer.wf(),
            fresh == fresh_writer(generation, bounds),
            forward_stream(fresh, forward@) == Ok::<WriterModel, Seq<char>>(middle),
            ordinal_stream(middle, ordinals@.take(k as int)) == Ok::<WriterModel, Seq<char>>(
                writer@,
            ),
            writer@.forward == forward@,
            writer@.ordinals == ordinals@.take(k as int),
            writer@.generation == generation,
        decreases ordinals.len() - k,
    {
        assert(ordinals@.take(k + 1).drop_last() =~= ordinals@.take(k as int));
        assert(ordinals@.take(k + 1) =~= ordinals@.take(k as int).push(ordinals@[k as int]));
        writer =
        match writer.push_ordinal(ordinals[k].surrogate, ordinals[k].uuid, false) {
            Ok(writer) => writer,
            Err(error) => {
                proof {
                    lemma_ordinal_fails(middle, ordinals@, k + 1);
                }
                return Err(error);
            },
        };
        assert(writer@.ordinals =~= ordinals@.take(k + 1));
        k = k + 1;
    }
    assert(ordinals@.take(k as int) =~= ordinals@);
    let ghost last = writer@;
    match writer.finish() {
        Ok(bundle) => {
            proof {
                let runs = id_runs(ordinals@);
                assert(bundle@.manifest.ranges =~= Seq::new(
                    runs.len(),
                    |i: int| run_range(runs[i], generation),
                ));
            }
            Ok(bundle)
        },
        Err(error) => Err(error),
    }
}

} // verus!
