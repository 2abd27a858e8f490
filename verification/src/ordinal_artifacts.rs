//! Ordinal artifact writers: forward records, contiguous ordinal ranges, and
//! tombstones.
use vstd::prelude::*;
use vstd::slice::*;
use vstd::string::*;

use crate::bytes::{be_bytes, be_value, push_be};
use crate::digest::{hex_sha256, sha256_hex};
use crate::error::{GfError, storage_err};
use crate::framing::{Framed, lemma_pack_push, pack};
use crate::keyed::{Keyed, ordered};
use crate::ordinal_format::{
    ArtifactFileView, Duplicated, finish_fault, finish_streamed_v4_artifact, installed,
    no_build_metrics, ordinal_blocks, OrdinalBlockView, RangeView, sealed_metrics, sealed_view,
    TombstoneBlockView, TombstonesView, V4_ORDINAL_BLOCK_BYTES, V4ArtifactFile,
    V4OrdinalArtifactKind, V4OrdinalBlock, V4OrdinalBuildMetrics, V4OrdinalRange,
    V4OrdinalTombstoneBlock, V4OrdinalTombstones, views,
};
use crate::records::NodeTombstone;

verus! {

/// The bytes of one block of an artifact.
pub open spec fn block_bytes_at(content: Seq<u8>, block: int) -> Seq<u8> {
    content.subrange(
        block * 65_536,
        if (block + 1) * 65_536 < content.len() {
            (block + 1) * 65_536
        } else {
            content.len() as int
        },
    )
}

/// The record of one block of an ordinal range.
pub open spec fn ordinal_block_at(content: Seq<u8>, block: int) -> OrdinalBlockView {
    let bytes = block_bytes_at(content, block);
    OrdinalBlockView {
        offset: (block * 65_536) as u64,
        count: (bytes.len() / 16) as u64,
        sha256: sha256_hex(bytes),
    }
}

/// The records of the blocks of an ordinal range.
pub open spec fn ordinal_block_views(content: Seq<u8>) -> Seq<OrdinalBlockView> {
    Seq::new(ordinal_blocks(content.len()), |i: int| ordinal_block_at(content, i))
}

/// The record of an ordinal range.
pub open spec fn range_view(first_node_id: u64, content: Seq<u8>, generation: u64) -> RangeView {
    RangeView {
        first_node_id,
        count: (content.len() / 16) as u64,
        artifact: sealed_view(
            content,
            "ordinal-v4"@,
            generation,
            V4OrdinalArtifactKind::OrdinalUuids,
        ),
        blocks: ordinal_block_views(content),
    }
}

/// Writer of the UUIDs of consecutive node identifiers, cut into
/// authenticated blocks.
#[derive(Debug, PartialEq, Eq)]
pub struct V4OrdinalRangeWriter {
    first_node_id: u64,
    content: Vec<u8>,
    blocks: Vec<V4OrdinalBlock>,
}

proof fn lemma_blocks_kept(blocks: Seq<V4OrdinalBlock>, content: Seq<u8>, more: Seq<u8>)
    requires
        blocks.len() * 65_536 <= content.len(),
        forall|i: int|
            0 <= i < blocks.len() ==> (#[trigger] blocks[i])@ == ordinal_block_at(content, i),
    ensures
        forall|i: int|
            0 <= i < blocks.len() ==> (#[trigger] blocks[i])@ == ordinal_block_at(
                content + more,
                i,
            ),
{
    assert forall|i: int| 0 <= i < blocks.len() implies (#[trigger] blocks[i])@
        == ordinal_block_at(content + more, i) by {
        assert((i + 1) * 65_536 <= content.len());
        assert(block_bytes_at(content + more, i) =~= block_bytes_at(content, i));
    }
}

proof fn lemma_room(len: int, blocks: int)
    requires
        len % 16 == 0,
        blocks * 65_536 <= len < (blocks + 1) * 65_536,
    ensures
        (len + 16) % 16 == 0,
        blocks * 65_536 < len + 16 <= (blocks + 1) * 65_536,
{
}

impl V4OrdinalRangeWriter {
    /// First node identifier of the range.
    pub closed spec fn first(self) -> u64 {
        self.first_node_id
    }

    /// The UUIDs written so far.
    pub closed spec fn bytes(self) -> Seq<u8> {
        self.content@
    }

    /// Whether the records of the full blocks are those of the contents.
    pub closed spec fn wf(self) -> bool {
        &&& self.content@.len() % 16 == 0
        &&& self.blocks@.len() * 65_536 <= self.content@.len() < (self.blocks@.len() + 1) * 65_536
        &&& forall|i: int|
            0 <= i < self.blocks@.len() ==> (#[trigger] self.blocks@[i])@ == ordinal_block_at(
                self.content@,
                i,
            )
    }

    /// Start a range.
    pub fn new(first_node_id: u64) -> (writer: V4OrdinalRangeWriter)
        ensures
            writer.wf(),
            writer.first() == first_node_id,
            writer.bytes() == Seq::<u8>::empty(),
    {
        V4OrdinalRangeWriter { first_node_id, content: Vec::new(), blocks: Vec::new() }
    }

    /// Bytes written so far.
    pub fn len(&self) -> (len: u64)
        requires
            self.wf(),
        ensures
            len == self.bytes().len(),
            len % 16 == 0,
    {
        self.content.len() as u64
    }

    /// Write the UUID of the next node identifier.
    pub fn push(&mut self, uuid: u128)
        requires
            old(self).wf(),
        ensures
            final(self).wf(),
            final(self).first() == old(self).first(),
            final(self).bytes() == old(self).bytes() + be_bytes(uuid as nat, 16),
    {
        proof {
            crate::bytes::lemma_be_bytes_len(uuid as nat, 16);
            lemma_blocks_kept(self.blocks@, self.content@, be_bytes(uuid as nat, 16));
            lemma_room(self.content@.len() as int, self.blocks@.len() as int);
        }
        push_be(&mut self.content, uuid, 16);
        let end: usize = self.content.len();
        let start: usize = self.blocks.len() * V4_ORDINAL_BLOCK_BYTES;
        if end - start == V4_ORDINAL_BLOCK_BYTES {
            self.finish_block();
        }
    }

    fn finish_block(&mut self)
        requires
            old(self).content@.len() % 16 == 0,
            old(self).blocks@.len() * 65_536 < old(self).content@.len() <= (old(self).blocks@.len()
                + 1) * 65_536,
            forall|i: int|
                0 <= i < old(self).blocks@.len() ==> (#[trigger] old(self).blocks@[i])@
                    == ordinal_block_at(old(self).content@, i),
        ensures
            final(self).content@ == old(self).content@,
            final(self).first_node_id == old(self).first_node_id,
            final(self).blocks@.len() == old(self).blocks@.len() + 1,
            forall|i: int|
                0 <= i < final(self).blocks@.len() ==> (#[trigger] final(self).blocks@[i])@
                    == ordinal_block_at(final(self).content@, i),
    {
        let ghost filled = self.blocks@;
        let end: usize = self.content.len();
        let start: usize = self.blocks.len() * V4_ORDINAL_BLOCK_BYTES;
        let block: &[u8] = slice_subrange(self.content.as_slice(), start, end);
        assert(block@ =~= block_bytes_at(self.content@, self.blocks@.len() as int));
        let record = V4OrdinalBlock {
            offset: start as u64,
            count: ((end - start) / 16) as u64,
            sha256: hex_sha256(block),
        };
        assert(record@ == ordinal_block_at(self.content@, self.blocks@.len() as int));
        self.blocks.push(record);
        assert forall|i: int| 0 <= i < self.blocks@.len() implies (#[trigger] self.blocks@[i])@
            == ordinal_block_at(self.content@, i) by {
            if i < filled.len() {
                assert(self.blocks@[i] == filled[i]);
            }
        }
    }
}

/// Why a range cannot be finished, if it cannot.
pub open spec fn range_fault(
    files: Seq<ArtifactFileView>,
    metrics: V4OrdinalBuildMetrics,
    content: Seq<u8>,
    generation: u64,
) -> Option<Seq<char>> {
    if content.len() == 0 {
        Some("v4 ordinal range is empty"@)
    } else {
        finish_fault(files, metrics, range_view(0, content, generation).artifact)
    }
}

/// Finish a range: seal its last block and install its artifact.
pub fn finish_streamed_v4_range(
    generation: u64,
    writer: V4OrdinalRangeWriter,
    files: &mut Vec<V4ArtifactFile>,
    metrics: &mut V4OrdinalBuildMetrics,
) -> (range: Result<V4OrdinalRange, GfError>)
    requires
        writer.wf(),
    ensures
        ({
            let content = writer.bytes();
            let view = range_view(writer.first(), content, generation);
            let fault = range_fault(views(old(files)@), *old(metrics), content, generation);
            match range {
                Ok(range) => {
                    &&& fault is None
                    &&& range@ == view
                    &&& views(final(files)@) == installed(
                        views(old(files)@),
                        ArtifactFileView { descriptor: view.artifact, bytes: content },
                    )
                    &&& *final(metrics) == sealed_metrics(*old(metrics), view.artifact.bytes)->Ok_0
                },
                Err(error) => {
                    &&& fault is Some
                    &&& error.is_storage(fault->0)
                    &&& final(files)@ == old(files)@
                    &&& *final(metrics) == *old(metrics)
                },
            }
        }),
{
    if writer.content.len() == 0 {
        return Err(storage_err("v4 ordinal range is empty"));
    }
    let mut writer: V4OrdinalRangeWriter = writer;
    let ghost content = writer.content@;
    let start: usize = writer.blocks.len() * V4_ORDINAL_BLOCK_BYTES;
    if start < writer.content.len() {
        writer.finish_block();
    }
    proof {
        let n = writer.blocks@.len();
        assert(n == ordinal_blocks(content.len())) by {
            assert((n - 1) * 65_536 < content.len() <= n * 65_536);
        }
        assert(views(writer.blocks@) =~= ordinal_block_views(content));
    }
    let count: u64 = (writer.content.len() / 16) as u64;
    match finish_streamed_v4_artifact(
        files,
        writer.content,
        "ordinal-v4",
        generation,
        V4OrdinalArtifactKind::OrdinalUuids,
        metrics,
    ) {
        Ok(artifact) => Ok(
            V4OrdinalRange {
                first_node_id: writer.first_node_id,
                count,
                artifact,
                blocks: writer.blocks,
            },
        ),
        Err(error) => Err(error),
    }
}

/// The record of one block of a tombstone run.
pub open spec fn tombstone_block_at(content: Seq<u8>, block: int) -> TombstoneBlockView {
    let bytes = block_bytes_at(content, block);
    TombstoneBlockView {
        offset: (block * 65_536) as u64,
        count: (bytes.len() / 8) as u64,
        first: be_value(bytes.subrange(0, 8)) as u64,
        last: be_value(bytes.subrange(bytes.len() - 8, bytes.len() as int)) as u64,
        sha256: sha256_hex(bytes),
    }
}

/// The record of a tombstone run.
pub open spec fn tombstones_view(ids: Seq<NodeTombstone>, generation: u64) -> TombstonesView {
    let content = pack(ids);
    TombstonesView {
        generation,
        artifact: sealed_view(
            content,
            "tombstones-v4"@,
            generation,
            V4OrdinalArtifactKind::NodeTombstones,
        ),
        blocks: Seq::new(ordinal_blocks(content.len()), |i: int| tombstone_block_at(content, i)),
    }
}

/// Whether identifiers are nonzero and strictly increasing.
pub open spec fn increasing(ids: Seq<NodeTombstone>) -> bool {
    &&& ordered(ids)
    &&& forall|i: int| 0 <= i < ids.len() ==> (#[trigger] ids[i]).node_id != 0
}

proof fn lemma_tombstone_bytes(ids: Seq<NodeTombstone>)
    ensures
        pack(ids).len() == 8 * ids.len(),
    decreases ids.len(),
{
    if ids.len() > 0 {
        lemma_tombstone_bytes(ids.drop_last());
        lemma_pack_push(ids.drop_last(), ids.last());
        assert(ids =~= ids.drop_last().push(ids.last()));
        crate::bytes::lemma_be_bytes_len(ids.last().node_id as nat, 8);
    }
}

fn tombstone_blocks(content: &Vec<u8>) -> (blocks: Vec<V4OrdinalTombstoneBlock>)
    requires
        content@.len() % 8 == 0,
    ensures
        views(blocks@) == Seq::new(
            ordinal_blocks(content@.len()),
            |i: int| tombstone_block_at(content@, i),
        ),
{
    let mut blocks: Vec<V4OrdinalTombstoneBlock> = Vec::new();
    let mut start: usize = 0;
    while start < content.len()
        invariant
            start == if blocks@.len() * 65_536 < content@.len() {
                blocks@.len() * 65_536
            } else {
                content@.len()
            },
            blocks@.len() == 0 || (blocks@.len() - 1) * 65_536 < content@.len(),
            content@.len() % 8 == 0,
            forall|i: int|
                0 <= i < blocks@.len() ==> (#[trigger] blocks@[i])@ == tombstone_block_at(
                    content@,
                    i,
                ),
        decreases content.len() - start,
    {
        let end: usize = if content.len() - start > V4_ORDINAL_BLOCK_BYTES {
            start + V4_ORDINAL_BLOCK_BYTES
        } else {
            content.len()
        };
        let bytes: &[u8] = slice_subrange(content.as_slice(), start, end);
        assert(bytes@ =~= block_bytes_at(content@, blocks@.len() as int));
        let block = V4OrdinalTombstoneBlock {
            offset: start as u64,
            count: ((end - start) / 8) as u64,
            first: crate::bytes::read_be_u64(bytes, 0),
            last: crate::bytes::read_be_u64(bytes, bytes.len() - 8),
            sha256: hex_sha256(bytes),
        };
        let ghost before = blocks@;
        assert(block@ == tombstone_block_at(content@, before.len() as int));
        blocks.push(block);
        assert forall|i: int| 0 <= i < blocks@.len() implies (#[trigger] blocks@[i])@
            == tombstone_block_at(content@, i) by {
            if i < before.len() {
                assert(blocks@[i] == before[i]);
            }
        }
        start = end;
    }
    assert(blocks@.len() == ordinal_blocks(content@.len()));
    assert(views(blocks@) =~= Seq::new(
        ordinal_blocks(content@.len()),
        |i: int| tombstone_block_at(content@, i),
    ));
    blocks
}

/// Why a tombstone run cannot be written, if it cannot.
pub open spec fn tombstone_fault(
    files: Seq<ArtifactFileView>,
    ids: Seq<NodeTombstone>,
    generation: u64,
) -> Option<Seq<char>> {
    if !increasing(ids) {
        Some("v4 tombstone stream is not strictly increasing"@)
    } else {
        finish_fault(files, no_build_metrics(), tombstones_view(ids, generation).artifact)
    }
}

/// Write a tombstone run: its record, its bytes and its synchronizations.
pub fn write_v4_tombstone_artifact(
    files: &mut Vec<V4ArtifactFile>,
    generation: u64,
    ids: &Vec<NodeTombstone>,
) -> (written: Result<(V4OrdinalTombstones, u64, u64), GfError>)
    ensures
        ({
            let view = tombstones_view(ids@, generation);
            let fault = tombstone_fault(views(old(files)@), ids@, generation);
            match written {
                Ok((run, bytes, fsyncs)) => {
                    &&& fault is None
                    &&& run@ == view
                    &&& bytes == 8 * ids@.len()
                    &&& fsyncs == 1
                    &&& views(final(files)@) == installed(
                        views(old(files)@),
                        ArtifactFileView { descriptor: view.artifact, bytes: pack(ids@) },
                    )
                },
                Err(error) => {
                    &&& fault is Some
                    &&& error.is_storage(fault->0)
                    &&& final(files)@ == old(files)@
                },
            }
        }),
{
    let mut content: Vec<u8> = Vec::new();
    let mut previous: Option<u64> = None;
    let mut i: usize = 0;
    let ghost all = ids@;
    while i < ids.len()
        invariant
            i <= ids@.len(),
            all == ids@,
            files@ == old(files)@,
            increasing(all.take(i as int)),
            previous == if i == 0 {
                None::<u64>
            } else {
                Some(all[i - 1].node_id)
            },
            content@ == pack(all.take(i as int)),
        decreases ids.len() - i,
    {
        let id: u64 = ids[i].node_id;
        let follows: bool = match previous {
            Some(previous) => previous < id,
            None => true,
        };
        if id == 0 || !follows {
            proof {
                if id != 0 {
                    assert(all[i - 1].key() >= all[i as int].key());
                }
                assert(!increasing(all));
            }
            return Err(storage_err("v4 tombstone stream is not strictly increasing"));
        }
        ids[i].push(&mut content);
        proof {
            let head = all.take(i as int);
            assert(all.take(i + 1) =~= head.push(all[i as int]));
            lemma_pack_push(head, all[i as int]);
            assert forall|a: int, b: int| 0 <= a < b < i + 1 implies (
            #[trigger] all.take(i + 1)[a]).key() < (#[trigger] all.take(i + 1)[b]).key() by {
                if b == i && a < i - 1 {
                    assert(head[a].key() < head[i - 1].key());
                } else if b < i {
                    assert(head[a].key() < head[b].key());
                }
            }
            assert forall|a: int| 0 <= a < i + 1 implies (#[trigger] all.take(i + 1)[a]).node_id
                != 0 by {
                if a < i {
                    assert(head[a].node_id != 0);
                }
            }
        }
        previous = Some(id);
        i = i + 1;
    }
    proof {
        assert(all.take(i as int) =~= all);
        lemma_tombstone_bytes(all);
    }
    let bytes: u64 = content.len() as u64;
    let blocks: Vec<V4OrdinalTombstoneBlock> = tombstone_blocks(&content);
    let mut metrics: V4OrdinalBuildMetrics = V4OrdinalBuildMetrics::none();
    match finish_streamed_v4_artifact(
        files,
        content,
        "tombstones-v4",
        generation,
        V4OrdinalArtifactKind::NodeTombstones,
        &mut metrics,
    ) {
        Ok(artifact) => Ok(
            (V4OrdinalTombstones { generation, artifact, blocks }, bytes, metrics.fsync_operations),
        ),
        Err(error) => Err(error),
    }
}

} // verus!
