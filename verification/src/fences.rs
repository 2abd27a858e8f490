//! Fence selection: only the blocks whose key range meets the wanted keys
//! are read and authenticated.
use vstd::prelude::*;
use vstd::slice::*;

use crate::bytes::{sat_add, saturating_sum};
use crate::error::{GfError, storage_err};
use crate::framing::{
    all_valid, decode, Framed, lemma_pack_append, lemma_pack_scanned, lemma_scan_packed, pack,
    scan,
};
use crate::index_format::{
    block_described, block_matches, block_slice, BlockRecord, BlockView, file_described,
    FileRecord, FileView, tile_at, tiles,
};

verus! {

/// Whether some wanted key lies between the first and last key of a block.
pub open spec fn block_wanted(block: BlockView, keys: Seq<u128>) -> bool {
    exists|i: int| 0 <= i < keys.len() && block.first <= #[trigger] keys[i] <= block.last
}

/// Whether a block lies within the file and is what its record describes.
pub open spec fn block_sound<T: Framed>(bytes: Seq<u8>, block: BlockView) -> bool {
    block.offset + block.len <= bytes.len() && block_described::<T>(
        block_slice(bytes, block),
        block,
    )
}

/// Whether every wanted block is sound.
pub open spec fn wanted_sound<T: Framed>(
    bytes: Seq<u8>,
    blocks: Seq<BlockView>,
    keys: Seq<u128>,
) -> bool {
    forall|i: int|
        0 <= i < blocks.len() && block_wanted(#[trigger] blocks[i], keys) ==> block_sound::<T>(
            bytes,
            blocks[i],
        )
}

/// The records of the wanted blocks, in file order.
pub open spec fn wanted_items<T: Framed>(
    bytes: Seq<u8>,
    blocks: Seq<BlockView>,
    keys: Seq<u128>,
) -> Seq<T>
    decreases blocks.len(),
{
    if blocks.len() == 0 {
        Seq::empty()
    } else {
        let before = wanted_items::<T>(bytes, blocks.drop_last(), keys);
        if block_wanted(blocks.last(), keys) {
            before + scan::<T>(block_slice(bytes, blocks.last())).0
        } else {
            before
        }
    }
}

/// Bytes of the wanted blocks on top of `total`.
pub open spec fn wanted_bytes(total: u64, blocks: Seq<BlockView>, keys: Seq<u128>) -> u64
    decreases blocks.len(),
{
    if blocks.len() == 0 {
        total
    } else {
        let before = wanted_bytes(total, blocks.drop_last(), keys);
        if block_wanted(blocks.last(), keys) {
            sat_add(before, blocks.last().len as u64)
        } else {
            before
        }
    }
}

/// Number of the wanted blocks on top of `total`.
pub open spec fn wanted_blocks(total: u64, blocks: Seq<BlockView>, keys: Seq<u128>) -> u64
    decreases blocks.len(),
{
    if blocks.len() == 0 {
        total
    } else {
        let before = wanted_blocks(total, blocks.drop_last(), keys);
        if block_wanted(blocks.last(), keys) {
            sat_add(before, 1)
        } else {
            before
        }
    }
}

/// The records of all blocks, in file order.
spec fn block_items<T: Framed>(bytes: Seq<u8>, blocks: Seq<BlockView>) -> Seq<T>
    decreases blocks.len(),
{
    if blocks.len() == 0 {
        Seq::empty()
    } else {
        block_items::<T>(bytes, blocks.drop_last()) + scan::<T>(
            block_slice(bytes, blocks.last()),
        ).0
    }
}

proof fn lemma_block_items<T: Framed>(bytes: Seq<u8>, file: FileView, n: int)
    requires
        file_described::<T>(bytes, file),
        0 <= n <= file.blocks.len(),
    ensures
        all_valid(block_items::<T>(bytes, file.blocks.take(n))),
        pack(block_items::<T>(bytes, file.blocks.take(n))) == bytes.take(
            if n < file.blocks.len() {
                file.blocks[n].offset as int
            } else {
                bytes.len() as int
            },
        ),
        n < file.blocks.len() ==> file.blocks[n].offset + file.blocks[n].len <= bytes.len(),
        forall|item: T, k: int|
            0 <= k < n && #[trigger] scan::<T>(
                block_slice(bytes, #[trigger] file.blocks[k]),
            ).0.contains(item) ==> block_items::<T>(bytes, file.blocks.take(n)).contains(item),
        forall|item: T|
            #[trigger] block_items::<T>(bytes, file.blocks.take(n)).contains(item) ==> exists|
                k: int,
            |
                0 <= k < n && scan::<T>(
                    block_slice(bytes, #[trigger] file.blocks[k]),
                ).0.contains(item),
    decreases n,
{
    let blocks = file.blocks;
    let total = bytes.len();
    if n < blocks.len() {
        lemma_block_end(blocks, total, n);
    }
    if n == 0 {
        assert(blocks.take(0) =~= Seq::<BlockView>::empty());
        assert(pack(Seq::<T>::empty()) =~= Seq::<u8>::empty());
        if blocks.len() > 0 {
            assert(bytes.take(blocks[0].offset as int) =~= Seq::<u8>::empty());
        } else {
            assert(bytes.take(total as int) =~= Seq::<u8>::empty());
        }
    } else {
        lemma_block_items::<T>(bytes, file, n - 1);
        let before = block_items::<T>(bytes, blocks.take(n - 1));
        let block = blocks[n - 1];
        let slice = block_slice(bytes, block);
        let items = scan::<T>(slice).0;
        assert(blocks.take(n).drop_last() =~= blocks.take(n - 1));
        assert(block_described::<T>(slice, block));
        lemma_pack_scanned::<T>(slice);
        lemma_pack_append(before, items);
        let all = before + items;
        assert(block_items::<T>(bytes, blocks.take(n)) == all);
        assert forall|i: int| 0 <= i < all.len() implies (#[trigger] all[i]).valid() by {
            if i < before.len() {
                assert(before[i].valid());
            } else {
                assert(items[i - before.len()].valid());
            }
        }
        let end = if n < blocks.len() {
            blocks[n].offset as int
        } else {
            total as int
        };
        assert(tile_at(blocks, total, n - 1));
        assert(block.offset + block.len == end);
        assert(bytes.take(block.offset as int) + slice =~= bytes.take(end));
        assert forall|item: T, k: int|
            0 <= k < n && #[trigger] scan::<T>(
                block_slice(bytes, #[trigger] blocks[k]),
            ).0.contains(item) implies all.contains(item) by {
            if k < n - 1 {
                assert(before.contains(item));
                let m = choose|m: int| 0 <= m < before.len() && before[m] == item;
                assert(all[m] == item);
            } else {
                let m = choose|m: int| 0 <= m < items.len() && items[m] == item;
                assert(all[before.len() + m] == item);
            }
        }
        assert forall|item: T| #[trigger] all.contains(item) implies exists|k: int|
            0 <= k < n && scan::<T>(block_slice(bytes, #[trigger] blocks[k])).0.contains(item) by {
            let m = choose|m: int| 0 <= m < all.len() && all[m] == item;
            if m < before.len() {
                assert(before[m] == item);
                assert(before.contains(item));
                let k = choose|k: int|
                    0 <= k < n - 1 && scan::<T>(
                        block_slice(bytes, #[trigger] blocks[k]),
                    ).0.contains(item);
                assert(scan::<T>(block_slice(bytes, blocks[k])).0.contains(item));
            } else {
                assert(items[m - before.len()] == item);
                assert(scan::<T>(block_slice(bytes, blocks[n - 1])).0.contains(item));
            }
        }
    }
}

proof fn lemma_block_end(blocks: Seq<BlockView>, total: nat, i: int)
    requires
        tiles(blocks, total),
        0 <= i < blocks.len(),
    ensures
        blocks[i].offset + blocks[i].len <= total,
    decreases blocks.len() - i,
{
    assert(tile_at(blocks, total, i));
    if i + 1 < blocks.len() {
        lemma_block_end(blocks, total, i + 1);
        assert(blocks[i].offset + blocks[i].len == blocks[i + 1].offset);
    }
}

proof fn lemma_wanted_subset<T: Framed>(
    bytes: Seq<u8>,
    blocks: Seq<BlockView>,
    keys: Seq<u128>,
)
    ensures
        forall|item: T|
            #[trigger] wanted_items::<T>(bytes, blocks, keys).contains(item) ==> exists|k: int|
                0 <= k < blocks.len() && scan::<T>(
                    block_slice(bytes, #[trigger] blocks[k]),
                ).0.contains(item),
        forall|item: T, k: int|
            0 <= k < blocks.len() && block_wanted(blocks[k], keys) && #[trigger] scan::<T>(
                block_slice(bytes, #[trigger] blocks[k]),
            ).0.contains(item) ==> wanted_items::<T>(bytes, blocks, keys).contains(item),
    decreases blocks.len(),
{
    if blocks.len() > 0 {
        let rest = blocks.drop_last();
        lemma_wanted_subset::<T>(bytes, rest, keys);
        let before = wanted_items::<T>(bytes, rest, keys);
        let items = scan::<T>(block_slice(bytes, blocks.last())).0;
        let all = wanted_items::<T>(bytes, blocks, keys);
        assert forall|item: T| #[trigger] all.contains(item) implies exists|k: int|
            0 <= k < blocks.len() && scan::<T>(
                block_slice(bytes, #[trigger] blocks[k]),
            ).0.contains(item) by {
            let m = choose|m: int| 0 <= m < all.len() && all[m] == item;
            if m < before.len() {
                assert(before[m] == item);
                assert(before.contains(item));
                let k = choose|k: int|
                    0 <= k < rest.len() && scan::<T>(
                        block_slice(bytes, #[trigger] rest[k]),
                    ).0.contains(item);
                assert(blocks[k] == rest[k]);
            } else {
                assert(items[m - before.len()] == item);
                assert(scan::<T>(block_slice(bytes, blocks[blocks.len() - 1])).0.contains(item));
            }
        }
        assert forall|item: T, k: int|
            0 <= k < blocks.len() && block_wanted(blocks[k], keys) && #[trigger] scan::<T>(
                block_slice(bytes, #[trigger] blocks[k]),
            ).0.contains(item) implies all.contains(item) by {
            if k < rest.len() {
                assert(rest[k] == blocks[k]);
                assert(before.contains(item));
                let m = choose|m: int| 0 <= m < before.len() && before[m] == item;
                assert(all[m] == item);
            } else {
                let m = choose|m: int| 0 <= m < items.len() && items[m] == item;
                assert(all[before.len() + m] == item);
            }
        }
    }
}

/// In an authentic file, fence selection is sound and complete: every wanted
/// block is sound, and the records of the wanted keys are exactly those that
/// the file holds.
pub proof fn lemma_fence_selection<T: Framed>(bytes: Seq<u8>, file: FileView, keys: Seq<u128>)
    requires
        file_described::<T>(bytes, file),
    ensures
        wanted_sound::<T>(bytes, file.blocks, keys),
        forall|item: T| #[trigger]
            wanted_items::<T>(bytes, file.blocks, keys).contains(item) ==> scan::<T>(
                bytes,
            ).0.contains(item),
        forall|item: T, i: int|
            0 <= i < keys.len() && #[trigger] scan::<T>(bytes).0.contains(item) && item.key()
                == #[trigger] keys[i] ==> wanted_items::<T>(
                bytes,
                file.blocks,
                keys,
            ).contains(item),
{
    let blocks = file.blocks;
    let n = blocks.len() as int;
    lemma_block_items::<T>(bytes, file, n);
    lemma_wanted_subset::<T>(bytes, blocks, keys);
    assert(blocks.take(n) =~= blocks);
    let all = block_items::<T>(bytes, blocks);
    assert(bytes.take(bytes.len() as int) =~= bytes);
    lemma_scan_packed(all);
    assert(scan::<T>(bytes).0 == all);
    assert forall|i: int| 0 <= i < n && block_wanted(#[trigger] blocks[i], keys) implies
        block_sound::<T>(bytes, blocks[i]) by {
        lemma_block_end(blocks, bytes.len(), i);
    }
    assert forall|item: T, i: int|
        0 <= i < keys.len() && #[trigger] all.contains(item) && item.key()
            == #[trigger] keys[i] implies wanted_items::<T>(bytes, blocks, keys).contains(
        item,
    ) by {
        let k = choose|k: int|
            0 <= k < n && scan::<T>(block_slice(bytes, #[trigger] blocks[k])).0.contains(item);
        let items = scan::<T>(block_slice(bytes, blocks[k])).0;
        assert(block_described::<T>(block_slice(bytes, blocks[k]), blocks[k]));
        let m = choose|m: int| 0 <= m < items.len() && items[m] == item;
        if m > 0 {
            assert(items[0].key() < items[m].key());
        }
        if m < items.len() - 1 {
            assert(items[m].key() < items[items.len() - 1].key());
        }
        assert(blocks[k].first <= keys[i] <= blocks[k].last);
        assert(block_wanted(blocks[k], keys));
    }
}

/// The records of the wanted blocks, with the work it took to read them.
#[derive(Debug)]
pub struct WantedRecords<T> {
    /// Records of the wanted blocks, in file order.
    pub records: Vec<T>,
    /// Bytes read.
    pub bytes: u64,
    /// Blocks read.
    pub blocks: u64,
}

fn is_wanted(block: &BlockRecord, keys: &Vec<u128>) -> (yes: bool)
    ensures
        yes == block_wanted(block@, keys@),
{
    let mut i: usize = 0;
    while i < keys.len()
        invariant
            i <= keys@.len(),
            forall|j: int|
                0 <= j < i ==> !(block.first <= #[trigger] keys@[j] && keys@[j] <= block.last),
        decreases keys.len() - i,
    {
        if block.first <= keys[i] && keys[i] <= block.last {
            return true;
        }
        i = i + 1;
    }
    false
}

/// Read and authenticate the blocks whose key range meets the wanted keys.
pub fn wanted_records<T: Framed>(
    bytes: &[u8],
    file: &FileRecord,
    keys: &Vec<u128>,
    failure: &str,
) -> (wanted: Result<WantedRecords<T>, GfError>)
    ensures
        match wanted {
            Ok(wanted) => {
                &&& wanted_sound::<T>(bytes@, file@.blocks, keys@)
                &&& wanted.records@ == wanted_items::<T>(bytes@, file@.blocks, keys@)
                &&& wanted.bytes == wanted_bytes(0, file@.blocks, keys@)
                &&& wanted.blocks == wanted_blocks(0, file@.blocks, keys@)
            },
            Err(error) => !wanted_sound::<T>(bytes@, file@.blocks, keys@) && error.is_storage(
                failure@,
            ),
        },
{
    let ghost views = file@.blocks;
    let total: u64 = bytes.len() as u64;
    let mut records: Vec<T> = Vec::new();
    let mut read_bytes: u64 = 0;
    let mut read_blocks: u64 = 0;
    let mut i: usize = 0;
    assert(views.take(0) =~= Seq::<BlockView>::empty());
    while i < file.blocks.len()
        invariant
            i <= file.blocks@.len(),
            views == file@.blocks,
            total == bytes.len(),
            records@ == wanted_items::<T>(bytes@, views.take(i as int), keys@),
            read_bytes == wanted_bytes(0, views.take(i as int), keys@),
            read_blocks == wanted_blocks(0, views.take(i as int), keys@),
            forall|j: int|
                0 <= j < i && block_wanted(#[trigger] views[j], keys@) ==> block_sound::<T>(
                    bytes@,
                    views[j],
                ),
        decreases file.blocks.len() - i,
    {
        let block: &BlockRecord = &file.blocks[i];
        proof {
            assert(views[i as int] == block@);
            assert(views.take(i + 1).drop_last() =~= views.take(i as int));
        }
        if is_wanted(block, keys) {
            if block.offset > total || total - block.offset < block.len as u64 {
                return Err(storage_err(failure));
            }
            let start: usize = block.offset as usize;
            let slice: &[u8] = slice_subrange(bytes, start, start + block.len as usize);
            assert(slice@ == block_slice(bytes@, block@));
            if !block_matches::<T>(slice, block) {
                return Err(storage_err(failure));
            }
            match decode::<T>(slice) {
                Ok(items) => {
                    let mut items: Vec<T> = items;
                    records.append(&mut items);
                },
                Err(_) => {},
            }
            read_bytes = saturating_sum(read_bytes, block.len as u64);
            read_blocks = saturating_sum(read_blocks, 1);
        }
        i = i + 1;
    }
    assert(views.take(i as int) =~= views);
    Ok(WantedRecords { records, bytes: read_bytes, blocks: read_blocks })
}

} // verus!
