//! What the descriptors of ordinal artifacts say of the files they describe.
use vstd::prelude::*;

use crate::bytes::{be_bytes, be_value, lemma_be_bytes_len, lemma_be_value_of_bytes, pow256};
use crate::carry_questions::carry_asks;
use crate::digest::sha256_hex;
use crate::framing::{Framed, pack};
use crate::ordinal_artifacts::{block_bytes_at, range_view, tombstones_view};
use crate::ordinal_compaction::{carried, carried_unless, CarryState};
use crate::ordinal_construction::forward_view;
use crate::ordinal_format::{ArtifactFileView, ArtifactView, ordinal_blocks};
use crate::records::{ForwardRecord, NodeTombstone};
use crate::runs::run_name;

verus! {

/// Whether a descriptor is that of a file: it bears the name that its contents give
/// it, its generation, its length and its digest.
pub open spec fn describes(
    artifact: ArtifactView,
    content: Seq<u8>,
    prefix: Seq<char>,
    generation: u64,
) -> bool {
    &&& artifact.name == run_name(prefix, generation, content)
    &&& artifact.generation == generation
    &&& artifact.bytes == content.len()
    &&& artifact.sha256 == sha256_hex(content)
}

/// Whether a block starts where the blocks of one size before it end, and is as long
/// as they are or reaches the end.
pub open spec fn block_spans(offset: u64, bytes: nat, i: int, total: nat) -> bool {
    &&& offset == 65_536 * i
    &&& 0 < bytes <= 65_536
    &&& offset + bytes <= total
    &&& bytes < 65_536 ==> offset + bytes == total
}

proof fn lemma_block_spans(content: Seq<u8>, i: int)
    requires
        0 <= i < ordinal_blocks(content.len()),
    ensures
        block_spans((i * 65_536) as u64, block_bytes_at(content, i).len(), i, content.len())
            || content.len() > u64::MAX,
        block_bytes_at(content, i) == content.subrange(
            65_536 * i,
            65_536 * i + block_bytes_at(content, i).len(),
        ),
        i == ordinal_blocks(content.len()) - 1 ==> 65_536 * i + block_bytes_at(content, i).len()
            == content.len(),
        i < ordinal_blocks(content.len()) - 1 ==> block_bytes_at(content, i).len() == 65_536,
{
    let n = content.len() as int;
    let b = ordinal_blocks(content.len()) as int;
    assert(b == (n + 65_535) / 65_536);
    assert(65_536 * b <= n + 65_535 < 65_536 * b + 65_536);
    assert(i * 65_536 == 65_536 * i);
    assert((i + 1) * 65_536 == 65_536 * i + 65_536);
    assert(65_536 * i < n);
}

/// A forward run's descriptor is that of the file of its mappings.
pub proof fn lemma_forward_described(mappings: Seq<ForwardRecord>, generation: u64)
    requires
        pack(mappings).len() <= u64::MAX,
    ensures
        describes(
            forward_view(mappings, generation),
            pack(mappings),
            "forward-v4"@,
            generation,
        ),
        forward_view(mappings, generation).kind is ForwardIdentities,
{
}

/// A range's descriptor is that of its file, and its blocks cover the file in order:
/// each holds whole UUIDs, as many as it says, and has its digest.
pub proof fn lemma_range_described(first_node_id: u64, content: Seq<u8>, generation: u64)
    requires
        0 < content.len() <= u64::MAX,
        content.len() % 16 == 0,
    ensures
        ({
            let range = range_view(first_node_id, content, generation);
            let blocks = range.blocks;
            &&& range.first_node_id == first_node_id
            &&& 16 * range.count == content.len()
            &&& describes(range.artifact, content, "ordinal-v4"@, generation)
            &&& range.artifact.kind is OrdinalUuids
            &&& blocks.len() > 0
            &&& blocks.last().offset + 16 * blocks.last().count == content.len()
            &&& forall|i: int|
                0 <= i < blocks.len() ==> block_spans(
                    (#[trigger] blocks[i]).offset,
                    (16 * blocks[i].count) as nat,
                    i,
                    content.len(),
                ) && blocks[i].sha256 == sha256_hex(
                    content.subrange(
                        blocks[i].offset as int,
                        blocks[i].offset + 16 * blocks[i].count,
                    ),
                )
        }),
{
    let range = range_view(first_node_id, content, generation);
    let blocks = range.blocks;
    let n = content.len() as int;
    assert forall|i: int| 0 <= i < blocks.len() implies block_spans(
        (#[trigger] blocks[i]).offset,
        (16 * blocks[i].count) as nat,
        i,
        content.len(),
    ) && blocks[i].sha256 == sha256_hex(
        content.subrange(blocks[i].offset as int, blocks[i].offset + 16 * blocks[i].count),
    ) && (i == blocks.len() - 1 ==> blocks[i].offset + 16 * blocks[i].count == content.len()) by {
        lemma_block_spans(content, i);
        let size = block_bytes_at(content, i).len() as int;
        if i == blocks.len() - 1 {
            assert(size == n - 65_536 * i);
        }
        assert(size % 16 == 0);
    }
    assert(blocks[blocks.len() - 1] == blocks.last());
}

proof fn lemma_tombstone_at(ids: Seq<NodeTombstone>, j: int)
    requires
        0 <= j < ids.len(),
    ensures
        pack(ids).len() == 8 * ids.len(),
        be_value(pack(ids).subrange(8 * j, 8 * j + 8)) == ids[j].node_id,
    decreases ids.len(),
{
    let first = ids[0].packed();
    let rest = ids.skip(1);
    lemma_be_bytes_len(ids[0].node_id as nat, 8);
    lemma_be_value_of_id(ids[0].node_id);
    if rest.len() > 0 {
        lemma_tombstone_at(rest, if j > 0 { j - 1 } else { 0 });
    } else {
        assert(pack(rest).len() == 0);
    }
    if j == 0 {
        assert(pack(ids).subrange(0, 8) =~= first);
    } else {
        assert(pack(ids).subrange(8 * j, 8 * j + 8) =~= pack(rest).subrange(
            8 * (j - 1),
            8 * (j - 1) + 8,
        ));
        assert(rest[j - 1] == ids[j]);
    }
}

proof fn lemma_be_value_of_id(node_id: u64)
    ensures
        be_value(be_bytes(node_id as nat, 8)) == node_id,
{
    reveal_with_fuel(pow256, 9);
    lemma_be_value_of_bytes(node_id as nat, 8);
}

/// A tombstone run's descriptor is that of its file, and its blocks cover the file in
/// order: each holds whole identifiers, as many as it says, tells the first and the
/// last of them and has its digest.
pub proof fn lemma_tombstones_described(ids: Seq<NodeTombstone>, generation: u64)
    requires
        pack(ids).len() <= u64::MAX,
    ensures
        ({
            let run = tombstones_view(ids, generation);
            let content = pack(ids);
            let blocks = run.blocks;
            &&& run.generation == generation
            &&& content.len() == 8 * ids.len()
            &&& describes(run.artifact, content, "tombstones-v4"@, generation)
            &&& run.artifact.kind is NodeTombstones
            &&& blocks.len() == 0 <==> ids.len() == 0
            &&& forall|i: int|
                0 <= i < blocks.len() ==> {
                    let first = (#[trigger] blocks[i]).offset / 8;
                    &&& block_spans(
                        blocks[i].offset,
                        (8 * blocks[i].count) as nat,
                        i,
                        content.len(),
                    )
                    &&& blocks[i].first == ids[first as int].node_id
                    &&& blocks[i].last == ids[first + blocks[i].count - 1].node_id
                    &&& blocks[i].sha256 == sha256_hex(
                        content.subrange(
                            blocks[i].offset as int,
                            blocks[i].offset + 8 * blocks[i].count,
                        ),
                    )
                }
        }),
{
    let run = tombstones_view(ids, generation);
    let content = pack(ids);
    let blocks = run.blocks;
    let n = content.len() as int;
    if ids.len() > 0 {
        lemma_tombstone_at(ids, 0);
    }
    assert forall|i: int| 0 <= i < blocks.len() implies {
        let first = (#[trigger] blocks[i]).offset / 8;
        &&& block_spans(blocks[i].offset, (8 * blocks[i].count) as nat, i, content.len())
        &&& blocks[i].first == ids[first as int].node_id
        &&& blocks[i].last == ids[first + blocks[i].count - 1].node_id
        &&& blocks[i].sha256 == sha256_hex(
            content.subrange(blocks[i].offset as int, blocks[i].offset + 8 * blocks[i].count),
        )
    } by {
        lemma_block_spans(content, i);
        let bytes = block_bytes_at(content, i);
        let size = bytes.len() as int;
        if i == blocks.len() - 1 {
            assert(size == n - 65_536 * i);
        }
        assert(size % 8 == 0);
        let count = size / 8;
        let first = 8_192 * i;
        assert(8 * count == size);
        lemma_tombstone_at(ids, first);
        lemma_tombstone_at(ids, first + count - 1);
        assert(bytes.subrange(0, 8) =~= content.subrange(8 * first, 8 * first + 8));
        assert(bytes.subrange(size - 8, size) =~= content.subrange(
            8 * (first + count - 1),
            8 * (first + count - 1) + 8,
        ));
    }
}

/// A compaction that is not told to stop ends as one that cannot be stopped, and one
/// that is told to stop at a question it asks fails.
pub proof fn lemma_carry_cancelled(
    before: CarryState,
    pinned: Seq<ArtifactFileView>,
    cancelled: Option<u64>,
)
    ensures
        cancelled is None || cancelled->0 >= carry_asks(before, pinned) ==> carried_unless(
            before,
            pinned,
            cancelled,
        ) == carried(before, pinned),
        cancelled is Some && cancelled->0 < carry_asks(before, pinned) ==> carried_unless(
            before,
            pinned,
            cancelled,
        ) is Err,
{
}

} // verus!
