//! Manifest of the UUID membership index: runs, their files and the
//! authenticated blocks of each file.
use vstd::prelude::*;
use vstd::slice::*;

use crate::digest::{hex_sha256, sha256_hex};
use crate::error::{GfError, storage_err};
use crate::framing::{
    all_valid, decode, Framed, lemma_pack_positive, lemma_pack_range, lemma_pack_scanned,
    lemma_scan_packed, pack, scan,
};
use crate::identity_codec::block_layout;
use crate::keyed::{check_ordered, ordered};

verus! {

/// Largest authenticated block, and the unit of sequential I/O.
pub const BULK_IO_BYTES: usize = 1_048_576;

/// Version of the manifest format.
pub const FORMAT_VERSION: u32 = 5;

/// Largest manifest that is read.
pub const MAX_MANIFEST_BYTES: u64 = 67_108_864;

/// Widest identity record.
pub const IDENTITY_RECORD_BYTES: u64 = 25;

/// Width of a surrogate record.
pub const NODE_LOOKUP_RECORD_BYTES: u64 = 24;

/// One authenticated block of a file.
#[derive(Debug, PartialEq, Eq)]
pub struct BlockRecord {
    /// Where the block starts.
    pub offset: u64,
    /// Its length in bytes.
    pub len: u32,
    /// Its record count.
    pub count: u64,
    /// Key of its first record.
    pub first: u128,
    /// Key of its last record.
    pub last: u128,
    /// Hexadecimal SHA-256 of its bytes.
    pub sha256: String,
}

/// One immutable file of the index.
#[derive(Debug, PartialEq, Eq)]
pub struct FileRecord {
    /// File name in the index directory.
    pub name: String,
    /// Record count.
    pub count: u64,
    /// Hexadecimal SHA-256 of the file.
    pub sha256: String,
    /// Blocks that cover the file in order.
    pub blocks: Vec<BlockRecord>,
}

/// One run: the identities of an interval of generations.
#[derive(Debug, PartialEq, Eq)]
pub struct RunRecord {
    /// Whether this is the base run.
    pub base: bool,
    /// Compaction level.
    pub level: u8,
    /// First generation covered.
    pub first_generation: u64,
    /// Last generation covered.
    pub last_generation: u64,
    /// UUID-ordered identities.
    pub identities: FileRecord,
    /// Surrogate-ordered nodes.
    pub node_surrogates: FileRecord,
    /// Live nodes in the run.
    pub node_count: u64,
    /// Live edges in the run.
    pub edge_count: u64,
    /// Deleted nodes in the run.
    pub deleted_node_count: u64,
    /// Deleted edges in the run.
    pub deleted_edge_count: u64,
}

/// The index manifest.
#[derive(Debug, PartialEq, Eq)]
pub struct Manifest {
    /// Format version.
    pub format_version: u32,
    /// Generation of the base run.
    pub base_generation: u64,
    /// Topology generation the manifest describes.
    pub current_generation: u64,
    /// Live nodes over all runs.
    pub live_node_count: u64,
    /// Live edges over all runs.
    pub live_edge_count: u64,
    /// Runs, oldest first.
    pub runs: Vec<RunRecord>,
}

/// Model of a [`BlockRecord`].
#[verifier::ext_equal]
pub struct BlockView {
    pub offset: u64,
    pub len: u32,
    pub count: u64,
    pub first: u128,
    pub last: u128,
    pub sha256: Seq<char>,
}

/// Model of a [`FileRecord`].
#[verifier::ext_equal]
pub struct FileView {
    pub name: Seq<char>,
    pub count: u64,
    pub sha256: Seq<char>,
    pub blocks: Seq<BlockView>,
}

/// Model of a [`RunRecord`].
#[verifier::ext_equal]
pub struct RunView {
    pub base: bool,
    pub level: u8,
    pub first_generation: u64,
    pub last_generation: u64,
    pub identities: FileView,
    pub node_surrogates: FileView,
    pub node_count: u64,
    pub edge_count: u64,
    pub deleted_node_count: u64,
    pub deleted_edge_count: u64,
}

/// Model of a [`Manifest`].
#[verifier::ext_equal]
pub struct ManifestView {
    pub format_version: u32,
    pub base_generation: u64,
    pub current_generation: u64,
    pub live_node_count: u64,
    pub live_edge_count: u64,
    pub runs: Seq<RunView>,
}

impl View for BlockRecord {
    type V = BlockView;

    open spec fn view(&self) -> BlockView {
        BlockView {
            offset: self.offset,
            len: self.len,
            count: self.count,
            first: self.first,
            last: self.last,
            sha256: self.sha256@,
        }
    }
}

/// Models of a sequence of block records.
pub open spec fn block_views(blocks: Seq<BlockRecord>) -> Seq<BlockView> {
    Seq::new(blocks.len(), |i: int| blocks[i]@)
}

impl View for FileRecord {
    type V = FileView;

    open spec fn view(&self) -> FileView {
        FileView {
            name: self.name@,
            count: self.count,
            sha256: self.sha256@,
            blocks: block_views(self.blocks@),
        }
    }
}

impl View for RunRecord {
    type V = RunView;

    open spec fn view(&self) -> RunView {
        RunView {
            base: self.base,
            level: self.level,
            first_generation: self.first_generation,
            last_generation: self.last_generation,
            identities: self.identities@,
            node_surrogates: self.node_surrogates@,
            node_count: self.node_count,
            edge_count: self.edge_count,
            deleted_node_count: self.deleted_node_count,
            deleted_edge_count: self.deleted_edge_count,
        }
    }
}

/// Models of a sequence of run records.
pub open spec fn run_views(runs: Seq<RunRecord>) -> Seq<RunView> {
    Seq::new(runs.len(), |i: int| runs[i]@)
}

impl View for Manifest {
    type V = ManifestView;

    open spec fn view(&self) -> ManifestView {
        ManifestView {
            format_version: self.format_version,
            base_generation: self.base_generation,
            current_generation: self.current_generation,
            live_node_count: self.live_node_count,
            live_edge_count: self.live_edge_count,
            runs: run_views(self.runs@),
        }
    }
}

impl BlockRecord {
    /// An equal block record.
    pub fn duplicate(&self) -> (copy: BlockRecord)
        ensures
            copy@ == self@,
    {
        BlockRecord {
            offset: self.offset,
            len: self.len,
            count: self.count,
            first: self.first,
            last: self.last,
            sha256: self.sha256.clone(),
        }
    }

    /// Whether two block records are equal.
    pub fn same(&self, other: &BlockRecord) -> (same: bool)
        ensures
            same == (self@ == other@),
    {
        self.offset == other.offset && self.len == other.len && self.count == other.count
            && self.first == other.first && self.last == other.last && self.sha256 == other.sha256
    }
}

impl FileRecord {
    /// An equal file record.
    pub fn duplicate(&self) -> (copy: FileRecord)
        ensures
            copy@ == self@,
    {
        let mut blocks: Vec<BlockRecord> = Vec::new();
        let mut i: usize = 0;
        while i < self.blocks.len()
            invariant
                i <= self.blocks@.len(),
                blocks@.len() == i,
                forall|j: int| 0 <= j < i ==> (#[trigger] blocks@[j])@ == self.blocks@[j]@,
            decreases self.blocks.len() - i,
        {
            blocks.push(self.blocks[i].duplicate());
            i = i + 1;
        }
        assert(block_views(blocks@) =~= block_views(self.blocks@));
        FileRecord {
            name: self.name.clone(),
            count: self.count,
            sha256: self.sha256.clone(),
            blocks,
        }
    }

    /// Whether two file records are equal.
    pub fn same(&self, other: &FileRecord) -> (same: bool)
        ensures
            same == (self@ == other@),
    {
        if !(self.name == other.name && self.count == other.count && self.sha256 == other.sha256
            && self.blocks.len() == other.blocks.len()) {
            assert(self@.blocks.len() == self.blocks@.len());
            assert(other@.blocks.len() == other.blocks@.len());
            return false;
        }
        let mut i: usize = 0;
        while i < self.blocks.len()
            invariant
                i <= self.blocks@.len() == other.blocks@.len(),
                forall|j: int|
                    0 <= j < i ==> (#[trigger] self.blocks@[j])@ == other.blocks@[j]@,
            decreases self.blocks.len() - i,
        {
            if !self.blocks[i].same(&other.blocks[i]) {
                assert(self@.blocks[i as int] != other@.blocks[i as int]);
                return false;
            }
            i = i + 1;
        }
        assert(self@.blocks =~= other@.blocks);
        true
    }
}

impl RunRecord {
    /// An equal run record.
    pub fn duplicate(&self) -> (copy: RunRecord)
        ensures
            copy@ == self@,
    {
        RunRecord {
            base: self.base,
            level: self.level,
            first_generation: self.first_generation,
            last_generation: self.last_generation,
            identities: self.identities.duplicate(),
            node_surrogates: self.node_surrogates.duplicate(),
            node_count: self.node_count,
            edge_count: self.edge_count,
            deleted_node_count: self.deleted_node_count,
            deleted_edge_count: self.deleted_edge_count,
        }
    }

    /// Whether two run records are equal.
    pub fn same(&self, other: &RunRecord) -> (same: bool)
        ensures
            same == (self@ == other@),
    {
        self.base == other.base && self.level == other.level && self.first_generation
            == other.first_generation && self.last_generation == other.last_generation
            && self.identities.same(&other.identities) && self.node_surrogates.same(
            &other.node_surrogates,
        ) && self.node_count == other.node_count && self.edge_count == other.edge_count
            && self.deleted_node_count == other.deleted_node_count && self.deleted_edge_count
            == other.deleted_edge_count
    }
}

impl Manifest {
    /// An equal manifest.
    pub fn duplicate(&self) -> (copy: Manifest)
        ensures
            copy@ == self@,
    {
        let mut runs: Vec<RunRecord> = Vec::new();
        let mut i: usize = 0;
        while i < self.runs.len()
            invariant
                i <= self.runs@.len(),
                runs@.len() == i,
                forall|j: int| 0 <= j < i ==> (#[trigger] runs@[j])@ == self.runs@[j]@,
            decreases self.runs.len() - i,
        {
            runs.push(self.runs[i].duplicate());
            i = i + 1;
        }
        assert(run_views(runs@) =~= run_views(self.runs@));
        Manifest {
            format_version: self.format_version,
            base_generation: self.base_generation,
            current_generation: self.current_generation,
            live_node_count: self.live_node_count,
            live_edge_count: self.live_edge_count,
            runs,
        }
    }

    /// Whether two manifests are equal.
    pub fn same(&self, other: &Manifest) -> (same: bool)
        ensures
            same == (self@ == other@),
    {
        if !(self.format_version == other.format_version && self.base_generation
            == other.base_generation && self.current_generation == other.current_generation
            && self.live_node_count == other.live_node_count && self.live_edge_count
            == other.live_edge_count && self.runs.len() == other.runs.len()) {
            assert(self@.runs.len() == self.runs@.len());
            assert(other@.runs.len() == other.runs@.len());
            return false;
        }
        let mut i: usize = 0;
        while i < self.runs.len()
            invariant
                i <= self.runs@.len() == other.runs@.len(),
                forall|j: int| 0 <= j < i ==> (#[trigger] self.runs@[j])@ == other.runs@[j]@,
            decreases self.runs.len() - i,
        {
            if !self.runs[i].same(&other.runs[i]) {
                assert(self@.runs[i as int] != other@.runs[i as int]);
                return false;
            }
            i = i + 1;
        }
        assert(self@.runs =~= other@.runs);
        true
    }
}

/// The bytes a block record speaks of.
pub open spec fn block_slice(bytes: Seq<u8>, block: BlockView) -> Seq<u8> {
    bytes.subrange(block.offset as int, block.offset + block.len)
}

/// Whether a block record describes exactly these bytes: whole records in
/// key order, their number, their first and last key and their digest.
pub open spec fn block_described<T: Framed>(bytes: Seq<u8>, block: BlockView) -> bool {
    let (items, fault) = scan::<T>(bytes);
    &&& fault is None
    &&& ordered(items)
    &&& items.len() > 0
    &&& block.len == bytes.len()
    &&& block.count == items.len()
    &&& block.first == items[0].key()
    &&& block.last == items.last().key()
    &&& block.sha256 == sha256_hex(bytes)
}

/// Whether a block is neither empty nor larger than a block may be, and ends
/// where the next one starts, or the last one at `total` bytes.
pub open spec fn tile_at(blocks: Seq<BlockView>, total: nat, i: int) -> bool {
    &&& 0 < blocks[i].len <= BULK_IO_BYTES
    &&& blocks[i].offset + blocks[i].len == if i + 1 < blocks.len() {
        blocks[i + 1].offset as nat
    } else {
        total
    }
}

/// Whether blocks cover `total` bytes in order, without gaps or overlaps,
/// none of them empty or larger than a block may be.
pub open spec fn tiles(blocks: Seq<BlockView>, total: nat) -> bool {
    &&& blocks.len() == 0 ==> total == 0
    &&& blocks.len() > 0 ==> blocks[0].offset == 0
    &&& forall|i: int| 0 <= i < blocks.len() ==> #[trigger] tile_at(blocks, total, i)
}

/// Whether a file record describes exactly these bytes: whole records in key
/// order, cut into described blocks, with the record count and the digest.
pub open spec fn file_described<T: Framed>(bytes: Seq<u8>, file: FileView) -> bool {
    &&& scan::<T>(bytes).1 is None
    &&& ordered(scan::<T>(bytes).0)
    &&& file.count == scan::<T>(bytes).0.len()
    &&& file.sha256 == sha256_hex(bytes)
    &&& tiles(file.blocks, bytes.len())
    &&& forall|i: int|
        0 <= i < file.blocks.len() ==> block_described::<T>(
            block_slice(bytes, #[trigger] file.blocks[i]),
            file.blocks[i],
        )
}

/// Whether the first record of the next block would not have fitted.
pub open spec fn maximal_at<T: Framed>(bytes: Seq<u8>, blocks: Seq<BlockView>, i: int) -> bool {
    blocks[i].len + scan::<T>(block_slice(bytes, blocks[i + 1])).0[0].packed().len()
        > BULK_IO_BYTES
}

/// Whether each block is as long as whole records allow: the first record of
/// the next block would not have fitted.
pub open spec fn blocks_maximal<T: Framed>(bytes: Seq<u8>, blocks: Seq<BlockView>) -> bool {
    forall|i: int|
        0 <= i < blocks.len() - 1 ==> #[trigger] maximal_at::<T>(bytes, blocks, i)
}

/// Whether `bytes` are what a block record describes.
pub fn block_matches<T: Framed>(bytes: &[u8], block: &BlockRecord) -> (matches: bool)
    ensures
        matches == block_described::<T>(bytes@, block@),
{
    if block.len as usize != bytes.len() {
        return false;
    }
    match block_layout::<T>(bytes, "records are not strictly ordered", "empty block") {
        Ok((count, first, last)) => count == block.count && first == block.first && last
            == block.last && hex_sha256(bytes) == block.sha256,
        Err(_) => false,
    }
}

/// Authenticate a whole file against its record and decode it.
pub fn authenticate_file<T: Framed>(bytes: &[u8], file: &FileRecord, failure: &str) -> (items:
    Result<Vec<T>, GfError>)
    ensures
        match items {
            Ok(items) => file_described::<T>(bytes@, file@) && items@ == scan::<T>(bytes@).0,
            Err(error) => !file_described::<T>(bytes@, file@) && error.is_storage(failure@),
        },
{
    let items: Vec<T> = match decode::<T>(bytes) {
        Ok(items) => items,
        Err(_) => {
            return Err(storage_err(failure));
        },
    };
    if !check_ordered(&items) || items.len() as u64 != file.count || hex_sha256(bytes)
        != file.sha256 {
        return Err(storage_err(failure));
    }
    let total: u64 = bytes.len() as u64;
    let mut next: u64 = 0;
    let mut i: usize = 0;
    while i < file.blocks.len()
        invariant
            i <= file.blocks@.len(),
            total == bytes.len(),
            next <= total,
            i == 0 ==> next == 0,
            i > 0 ==> next == file.blocks@[i - 1].offset + file.blocks@[i - 1].len,
            i > 0 ==> file.blocks@[0].offset == 0,
            forall|j: int|
                0 <= j < i ==> {
                    &&& 0 < (#[trigger] file.blocks@[j]).len <= BULK_IO_BYTES
                    &&& file.blocks@[j].offset + file.blocks@[j].len == if j + 1 < i {
                        file.blocks@[j + 1].offset as int
                    } else {
                        next as int
                    }
                    &&& block_described::<T>(
                        block_slice(bytes@, file.blocks@[j]@),
                        file.blocks@[j]@,
                    )
                },
        decreases file.blocks.len() - i,
    {
        let block: &BlockRecord = &file.blocks[i];
        let bad: bool = block.offset != next || block.len == 0 || block.len as usize
            > BULK_IO_BYTES || total - next < block.len as u64;
        if bad {
            proof {
                let views = file@.blocks;
                assert(views[i as int] == block@);
                if file_described::<T>(bytes@, file@) {
                    assert(tile_at(views, bytes@.len(), i as int));
                    if i > 0 {
                        assert(tile_at(views, bytes@.len(), i - 1));
                        assert(views[i - 1].offset + views[i - 1].len == views[i as int].offset);
                    } else {
                        assert(views[0].offset == 0);
                    }
                    lemma_tile_end(views, bytes@.len(), i as int);
                }
            }
            return Err(storage_err(failure));
        }
        let start: usize = block.offset as usize;
        let end: usize = start + block.len as usize;
        let slice: &[u8] = slice_subrange(bytes, start, end);
        if !block_matches::<T>(slice, block) {
            assert(file@.blocks[i as int] == block@);
            return Err(storage_err(failure));
        }
        next = block.offset + block.len as u64;
        i = i + 1;
    }
    if next != total {
        proof {
            let views = file@.blocks;
            if file_described::<T>(bytes@, file@) && views.len() > 0 {
                let last = views.len() - 1;
                assert(tile_at(views, bytes@.len(), last));
                assert(views[last].offset + views[last].len == bytes@.len());
            }
        }
        return Err(storage_err(failure));
    }
    proof {
        let views = file@.blocks;
        assert forall|j: int| 0 <= j < views.len() implies {
            &&& 0 < (#[trigger] views[j]).len <= BULK_IO_BYTES
            &&& views[j].offset + views[j].len == if j + 1 < views.len() {
                views[j + 1].offset as nat
            } else {
                bytes@.len()
            }
            &&& block_described::<T>(block_slice(bytes@, views[j]), views[j])
        } by {
            assert(file.blocks@[j]@ == views[j]);
        }
        assert forall|j: int| 0 <= j < views.len() implies #[trigger] tile_at(
            views,
            bytes@.len(),
            j,
        ) by {
            assert(0 < views[j].len);
        }
    }
    Ok(items)
}

/// A block of a tiling ends within the file.
proof fn lemma_tile_end(blocks: Seq<BlockView>, total: nat, i: int)
    requires
        tiles(blocks, total),
        0 <= i < blocks.len(),
    ensures
        blocks[i].offset + blocks[i].len <= total,
    decreases blocks.len() - i,
{
    assert(tile_at(blocks, total, i));
    if i + 1 < blocks.len() {
        lemma_tile_end(blocks, total, i + 1);
        assert(blocks[i].offset + blocks[i].len == blocks[i + 1].offset);
    }
}

/// The record that starts where the first `i` records end.
proof fn lemma_front_at<T: Framed>(items: Seq<T>, i: int)
    requires
        all_valid(items),
        0 <= i < items.len(),
    ensures
        pack(items.take(i)).len() < pack(items).len(),
        T::front(pack(items).skip(pack(items.take(i)).len() as int)) == Ok::<(T, nat), Seq<char>>(
            (items[i], items[i].packed().len()),
        ),
        pack(items.take(i + 1)).len() == pack(items.take(i)).len() + items[i].packed().len(),
        0 < items[i].packed().len() <= 64,
{
    lemma_pack_range(items, i, items.len() as int);
    lemma_pack_range(items, 0, i + 1);
    assert(items.take(items.len() as int) =~= items);
    let rest = items.subrange(i, items.len() as int);
    let offset = pack(items.take(i)).len() as int;
    assert(pack(items).skip(offset) =~= pack(rest));
    assert(rest[0] == items[i]);
    assert(pack(rest) == items[i].packed() + pack(rest.skip(1)));
    items[i].front_of_packed(pack(rest.skip(1)));
    crate::framing::lemma_pack_push(items.take(i), items[i]);
    assert(items.take(i).push(items[i]) =~= items.take(i + 1));
}

/// Digest, maximal blocks and record count of a file of ordered records.
pub fn describe_blocks<T: Framed>(bytes: &[u8]) -> (described: Result<
    (String, Vec<BlockRecord>, u64),
    GfError,
>)
    ensures
        match described {
            Ok((sha256, blocks, count)) => {
                &&& forall|name: Seq<char>|
                    file_described::<T>(
                        bytes@,
                        #[trigger] described_view(name, sha256@, blocks@, count),
                    )
                &&& blocks_maximal::<T>(bytes@, block_views(blocks@))
            },
            Err(error) => match scan::<T>(bytes@).1 {
                Some(message) => error.is_storage(message),
                None => !ordered(scan::<T>(bytes@).0) && error.is_storage(
                    "index file records are not strictly ordered"@,
                ),
            },
        },
{
    let items: Vec<T> = match decode::<T>(bytes) {
        Ok(items) => items,
        Err(error) => {
            return Err(error);
        },
    };
    if !check_ordered(&items) {
        return Err(storage_err("index file records are not strictly ordered"));
    }
    proof {
        lemma_pack_scanned::<T>(bytes@);
        assert(items@.take(0) =~= Seq::<T>::empty());
    }
    let sha256: String = hex_sha256(bytes);
    let mut blocks: Vec<BlockRecord> = Vec::new();
    let mut i: usize = 0;
    let mut offset: usize = 0;
    while i < items.len()
        invariant
            i <= items@.len(),
            offset <= bytes.len(),
            items@ == scan::<T>(bytes@).0,
            all_valid(items@),
            ordered(items@),
            pack(items@) == bytes@,
            offset == pack(items@.take(i as int)).len(),
            blocks@.len() == 0 ==> i == 0 && offset == 0,
            blocks@.len() > 0 ==> blocks@[0].offset == 0,
            forall|j: int|
                0 <= j < blocks@.len() ==> {
                    &&& 0 < (#[trigger] blocks@[j]).len <= BULK_IO_BYTES
                    &&& blocks@[j].offset + blocks@[j].len == if j + 1 < blocks@.len() {
                        blocks@[j + 1].offset as int
                    } else {
                        offset as int
                    }
                    &&& block_described::<T>(block_slice(bytes@, blocks@[j]@), blocks@[j]@)
                    &&& j + 1 < blocks@.len() ==> blocks@[j].len + scan::<T>(
                        block_slice(bytes@, blocks@[j + 1]@),
                    ).0[0].packed().len() > BULK_IO_BYTES
                },
            blocks@.len() > 0 && i < items@.len() ==> blocks@.last().len
                + items@[i as int].packed().len() > BULK_IO_BYTES,
        decreases items.len() - i,
    {
        let mut j: usize = i;
        let mut end: usize = offset;
        let mut full: bool = false;
        while j < items.len() && !full
            invariant
                i <= j <= items@.len(),
                offset <= end <= bytes.len(),
                offset == pack(items@.take(i as int)).len(),
                end == pack(items@.take(j as int)).len(),
                end - offset <= BULK_IO_BYTES,
                all_valid(items@),
                pack(items@) == bytes@,
                j == i ==> end == offset && !full,
                full ==> j < items@.len() && end - offset + items@[j as int].packed().len()
                    > BULK_IO_BYTES,
            decreases items.len() - j, !full as int,
        {
            proof {
                lemma_front_at(items@, j as int);
            }
            let width: usize = match T::read_front(bytes, end) {
                Ok((_, width)) => width,
                Err(_) => 0,
            };
            if end - offset + width <= BULK_IO_BYTES {
                proof {
                    lemma_pack_range(items@, 0, j + 1);
                }
                end = end + width;
                j = j + 1;
            } else {
                full = true;
            }
        }
        let slice: &[u8] = slice_subrange(bytes, offset, end);
        let ghost part = items@.subrange(i as int, j as int);
        proof {
            lemma_pack_range(items@, i as int, j as int);
            assert forall|k: int| 0 <= k < part.len() implies (#[trigger] part[k]).valid() by {
                assert(items@[i + k].valid());
            }
            lemma_scan_packed(part);
            lemma_pack_positive(part);
            assert(ordered(part));
            assert(slice@ == pack(part));
            assert(part.len() > 0);
        }
        let first: u128 = items[i].key_value();
        let last: u128 = items[j - 1].key_value();
        let block = BlockRecord {
            offset: offset as u64,
            len: (end - offset) as u32,
            count: (j - i) as u64,
            first,
            last,
            sha256: hex_sha256(slice),
        };
        proof {
            assert(block_slice(bytes@, block@) =~= slice@);
            assert(block_described::<T>(block_slice(bytes@, block@), block@));
            assert(scan::<T>(block_slice(bytes@, block@)).0[0] == items@[i as int]);
        }
        let ghost before = blocks@;
        blocks.push(block);
        proof {
            assert forall|k: int| 0 <= k < blocks@.len() implies {
                &&& 0 < (#[trigger] blocks@[k]).len <= BULK_IO_BYTES
                &&& blocks@[k].offset + blocks@[k].len == if k + 1 < blocks@.len() {
                    blocks@[k + 1].offset as int
                } else {
                    end as int
                }
                &&& block_described::<T>(block_slice(bytes@, blocks@[k]@), blocks@[k]@)
                &&& k + 1 < blocks@.len() ==> blocks@[k].len + scan::<T>(
                    block_slice(bytes@, blocks@[k + 1]@),
                ).0[0].packed().len() > BULK_IO_BYTES
            } by {
                if k < before.len() {
                    assert(blocks@[k] == before[k]);
                    if k + 1 < before.len() {
                        assert(blocks@[k + 1] == before[k + 1]);
                    }
                }
            }
        }
        i = j;
        offset = end;
    }
    proof {
        assert(items@.take(i as int) =~= items@);
        let views = block_views(blocks@);
        assert forall|name: Seq<char>|
            file_described::<T>(
                bytes@,
                #[trigger] described_view(name, sha256@, blocks@, items@.len() as u64),
            ) by {
            let file = described_view(name, sha256@, blocks@, items@.len() as u64);
            assert forall|j: int| 0 <= j < views.len() implies {
                &&& 0 < (#[trigger] views[j]).len <= BULK_IO_BYTES
                &&& views[j].offset + views[j].len == if j + 1 < views.len() {
                    views[j + 1].offset as nat
                } else {
                    bytes@.len()
                }
                &&& block_described::<T>(block_slice(bytes@, views[j]), views[j])
            } by {
                assert(blocks@[j]@ == views[j]);
            }
            assert forall|j: int| 0 <= j < views.len() implies #[trigger] tile_at(
                views,
                bytes@.len(),
                j,
            ) by {
                assert(0 < views[j].len);
            }
            assert(tiles(file.blocks, bytes@.len()));
        }
        assert forall|j: int| 0 <= j < views.len() - 1 implies #[trigger] maximal_at::<T>(
            bytes@,
            views,
            j,
        ) by {
            assert(blocks@[j]@ == views[j]);
            assert(blocks@[j + 1]@ == views[j + 1]);
        }
    }
    let count: u64 = items.len() as u64;
    Ok((sha256, blocks, count))
}

/// The file record that a description gives under a name.
pub open spec fn described_view(
    name: Seq<char>,
    sha256: Seq<char>,
    blocks: Seq<BlockRecord>,
    count: u64,
) -> FileView {
    FileView { name, count, sha256, blocks: block_views(blocks) }
}

} // verus!
