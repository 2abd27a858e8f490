//! What a snapshot of an index stands for, and what makes it invalid.
use vstd::prelude::*;

use crate::digest::sha256_hex;
use crate::framing::{Framed, scan};
use crate::identity_codec::Identity;
use crate::index_format::{
    block_described, block_slice, BlockView, BULK_IO_BYTES, file_described, FileView,
    FORMAT_VERSION, ManifestView, MAX_MANIFEST_BYTES, RunView, tile_at,
};
use crate::keyed::Keyed;
use crate::probing::all_authentic;
use crate::records::NodeSurrogate;
use crate::revalidation::{
    advanced_runs, advancing, change, restoring, retained_at, run_file_change, runs_change,
};
use crate::runs::RunModel;
use crate::receipts::INDEX_DIR;
use crate::snapshot::{
    FileIdentity, first_at, identity_length, index_path, IndexSight, InventoryEntry, leased_run,
    leased_runs, leasing, NamedFile, object_at, opened_run, opened_runs, OpenedModel, opening,
    RunFiles, SeenObject, SnapshotModel, surrogate_length,
};

verus! {

/// Whether bytes are what a file record says: they have its digest, they are
/// whole records with strictly rising keys, as many as it counts, and each of its
/// blocks has its digest, starts where the one before it ends, and tells its first
/// and its last key.
pub open spec fn matches_record<T: Framed>(bytes: Seq<u8>, file: FileView) -> bool {
    let items = scan::<T>(bytes).0;
    &&& sha256_hex(bytes) == file.sha256
    &&& scan::<T>(bytes).1 is None
    &&& items.len() == file.count
    &&& forall|i: int, j: int|
        0 <= i < j < items.len() ==> (#[trigger] items[i]).key() < (#[trigger] items[j]).key()
    &&& file.blocks.len() == 0 ==> bytes.len() == 0
    &&& file.blocks.len() > 0 ==> file.blocks[0].offset == 0 && file.blocks.last().offset
        + file.blocks.last().len == bytes.len()
    &&& forall|i: int|
        0 <= i < file.blocks.len() ==> matches_block::<T>(bytes, #[trigger] file.blocks[i])
    &&& forall|i: int|
        0 <= i < file.blocks.len() - 1 ==> (#[trigger] file.blocks[i]).offset + file.blocks[i].len
            == file.blocks[i + 1].offset
}

/// Whether a block record says of its bytes what they are.
pub open spec fn matches_block<T: Framed>(bytes: Seq<u8>, block: BlockView) -> bool {
    let part = bytes.subrange(block.offset as int, block.offset + block.len);
    let items = scan::<T>(part).0;
    &&& 0 < block.len <= BULK_IO_BYTES
    &&& block.offset + block.len <= bytes.len()
    &&& sha256_hex(part) == block.sha256
    &&& scan::<T>(part).1 is None
    &&& forall|i: int, j: int|
        0 <= i < j < items.len() ==> (#[trigger] items[i]).key() < (#[trigger] items[j]).key()
    &&& items.len() == block.count
    &&& items.len() > 0
    &&& items[0].key() == block.first
    &&& items[items.len() - 1].key() == block.last
}

proof fn lemma_tile_ends(blocks: Seq<BlockView>, total: nat, i: int)
    requires
        forall|k: int| 0 <= k < blocks.len() ==> #[trigger] tile_at(blocks, total, k),
        0 <= i < blocks.len(),
    ensures
        blocks[i].offset + blocks[i].len <= total,
    decreases blocks.len() - i,
{
    assert(tile_at(blocks, total, i));
    if i + 1 < blocks.len() {
        lemma_tile_ends(blocks, total, i + 1);
    }
}

/// A file that a record describes is what the record says, to the last block.
pub proof fn lemma_described_matches<T: Framed>(bytes: Seq<u8>, file: FileView)
    requires
        file_described::<T>(bytes, file),
    ensures
        matches_record::<T>(bytes, file),
{
    let blocks = file.blocks;
    if blocks.len() > 0 {
        assert(tile_at(blocks, bytes.len(), blocks.len() - 1));
    }
    assert forall|i: int| 0 <= i < blocks.len() implies matches_block::<T>(
        bytes,
        #[trigger] blocks[i],
    ) by {
        lemma_tile_ends(blocks, bytes.len(), i);
        assert(tile_at(blocks, bytes.len(), i));
    }
    assert forall|i: int| 0 <= i < blocks.len() - 1 implies (#[trigger] blocks[i]).offset
        + blocks[i].len == blocks[i + 1].offset by {
        assert(tile_at(blocks, bytes.len(), i));
    }
}

/// A file that is what a record says, to the last block, is described by it.
pub proof fn lemma_matches_described<T: Framed>(bytes: Seq<u8>, file: FileView)
    requires
        matches_record::<T>(bytes, file),
    ensures
        file_described::<T>(bytes, file),
{
    let blocks = file.blocks;
    assert forall|i: int| 0 <= i < blocks.len() implies #[trigger] tile_at(
        blocks,
        bytes.len(),
        i,
    ) by {
        assert(matches_block::<T>(bytes, blocks[i]));
    }
    assert forall|i: int| 0 <= i < blocks.len() implies block_described::<T>(
        block_slice(bytes, #[trigger] blocks[i]),
        blocks[i],
    ) by {
        assert(matches_block::<T>(bytes, blocks[i]));
    }
}

/// Whether a file is the first of its name.
pub open spec fn first_named(files: Seq<NamedFile>, name: Seq<char>, k: int) -> bool {
    &&& 0 <= k < files.len()
    &&& files[k].name@ == name
    &&& forall|j: int| 0 <= j < k ==> (#[trigger] files[j]).name@ != name
}

/// The file that a name stands for is the first of that name.
pub proof fn lemma_first_named(files: Seq<NamedFile>, name: Seq<char>)
    ensures
        match first_at(files, name) {
            Some(k) => first_named(files, name, k),
            None => forall|j: int| 0 <= j < files.len() ==> (#[trigger] files[j]).name@ != name,
        },
        forall|k: int| #[trigger] first_named(files, name, k) ==> first_at(files, name) == Some(k),
    decreases files.len(),
{
    if files.len() > 0 {
        let front = files.drop_last();
        lemma_first_named(front, name);
        if let Some(k) = first_at(front, name) {
            assert(first_named(front, name, k));
            assert forall|j: int| 0 <= j < k implies (#[trigger] files[j]).name@ != name by {
                assert(front[j] == files[j]);
            }
            assert(front[k] == files[k]);
        } else {
            assert forall|j: int| 0 <= j < front.len() implies (#[trigger] files[j]).name@
                != name by {
                assert(front[j] == files[j]);
            }
        }
        assert forall|k: int| #[trigger] first_named(files, name, k) implies first_at(files, name)
            == Some(k) by {
            if k < front.len() {
                assert(front[k] == files[k]);
                assert forall|j: int| 0 <= j < k implies (#[trigger] front[j]).name@ != name by {
                    assert(front[j] == files[j]);
                }
                assert(first_named(front, name, k));
            } else {
                if let Some(i) = first_at(front, name) {
                    assert(front[i] == files[i]);
                }
            }
        }
    }
}

/// Whether a run was opened from the files of an index root.
pub open spec fn opened_from(
    run: RunModel,
    held: RunFiles,
    described: RunView,
    files: Seq<NamedFile>,
) -> bool {
    &&& run.run == described
    &&& matches_record::<Identity>(run.identities, described.identities)
    &&& matches_record::<NodeSurrogate>(run.node_surrogates, described.node_surrogates)
    &&& exists|k: int| #[trigger]
        first_named(files, described.identities.name, k) && files[k].file.bytes@ == run.identities
            && files[k].file.identity == held.identities
    &&& exists|k: int| #[trigger]
        first_named(files, described.node_surrogates.name, k) && files[k].file.bytes@
            == run.node_surrogates && files[k].file.identity == held.node_surrogates
}

/// Whether both files of a run are there, the first of their names being what its
/// records describe.
pub open spec fn openable(files: Seq<NamedFile>, run: RunView) -> bool {
    &&& exists|k: int| #[trigger]
        first_named(files, run.identities.name, k) && file_described::<Identity>(
            files[k].file.bytes@,
            run.identities,
        )
    &&& exists|k: int| #[trigger]
        first_named(files, run.node_surrogates.name, k) && file_described::<NodeSurrogate>(
            files[k].file.bytes@,
            run.node_surrogates,
        )
}

proof fn lemma_opened_from(files: Seq<NamedFile>, runs: Seq<RunView>)
    ensures
        match opened_runs(files, runs) {
            Ok(opened) => opened.len() == runs.len() && forall|i: int|
                0 <= i < runs.len() ==> opened_from(
                    (#[trigger] opened[i]).run,
                    opened[i].files,
                    runs[i],
                    files,
                ) && opened[i].run.authentic(),
            Err(_) => exists|i: int|
                0 <= i < runs.len() && !(#[trigger] openable(files, runs[i])),
        },
    decreases runs.len(),
{
    if runs.len() > 0 {
        let front = runs.drop_last();
        let last = runs.last();
        lemma_opened_from(files, front);
        lemma_first_named(files, last.identities.name);
        lemma_first_named(files, last.node_surrogates.name);
        assert(runs[runs.len() - 1] == last);
        match opened_runs(files, front) {
            Err(_) => {
                let i = choose|i: int| 0 <= i < front.len() && !(#[trigger] openable(files, front[i]));
                assert(!openable(files, runs[i]));
            },
            Ok(opened) => {
                match opened_run(files, last) {
                    Err(_) => {
                        assert(!openable(files, runs[runs.len() - 1]));
                    },
                    Ok(model) => {
                        lemma_described_matches::<Identity>(
                            model.run.identities,
                            last.identities,
                        );
                        lemma_described_matches::<NodeSurrogate>(
                            model.run.node_surrogates,
                            last.node_surrogates,
                        );
                        let all = opened.push(model);
                        assert forall|i: int| 0 <= i < runs.len() implies opened_from(
                            (#[trigger] all[i]).run,
                            all[i].files,
                            runs[i],
                            files,
                        ) && all[i].run.authentic() by {
                            if i < front.len() {
                                assert(all[i] == opened[i]);
                                assert(front[i] == runs[i]);
                            } else {
                                let a = first_at(files, last.identities.name)->0;
                                let b = first_at(files, last.node_surrogates.name)->0;
                                assert(first_named(files, last.identities.name, a));
                                assert(first_named(files, last.node_surrogates.name, b));
                            }
                        }
                    },
                }
            },
        }
    }
}

/// A snapshot that opens is the index that the manifest describes: of the
/// generation that was asked for, each run with the bytes of its files, which are
/// what its records say, and with their identities.
pub proof fn lemma_snapshot_authentic(
    graph_root_path: Seq<char>,
    sight: IndexSight,
    generation: u64,
)
    requires
        opening(graph_root_path, sight, generation) is Ok,
    ensures
        ({
            let snapshot = opening(graph_root_path, sight, generation)->Ok_0;
            let manifest = sight.parsed->0@;
            &&& sight.manifest is Some
            &&& sight.parsed is Some
            &&& sight.manifest->0.bytes@.len() <= MAX_MANIFEST_BYTES
            &&& manifest.format_version == FORMAT_VERSION
            &&& manifest.current_generation == generation
            &&& snapshot.manifest_sha256 == sha256_hex(sight.manifest->0.bytes@)
            &&& snapshot.manifest_identity == sight.manifest->0.identity
            &&& snapshot.index.current_generation == generation
            &&& snapshot.index.live_node_count == manifest.live_node_count
            &&& snapshot.index.live_edge_count == manifest.live_edge_count
            &&& snapshot.graph_root == sight.graph_root
            &&& snapshot.root == sight.root
            &&& all_authentic(snapshot.index.runs)
            &&& snapshot.index.runs.len() == manifest.runs.len()
            &&& snapshot.files.len() == manifest.runs.len()
            &&& forall|i: int|
                0 <= i < manifest.runs.len() ==> opened_from(
                    #[trigger] snapshot.index.runs[i],
                    snapshot.files[i],
                    manifest.runs[i],
                    sight.files@,
                )
        }),
{
    let manifest = sight.parsed->0@;
    lemma_opened_from(sight.files@, manifest.runs);
    let opened = opened_runs(sight.files@, manifest.runs)->Ok_0;
    let snapshot = opening(graph_root_path, sight, generation)->Ok_0;
    assert forall|i: int| 0 <= i < manifest.runs.len() implies opened_from(
        #[trigger] snapshot.index.runs[i],
        snapshot.files[i],
        manifest.runs[i],
        sight.files@,
    ) && snapshot.index.runs[i].authentic() by {
        assert(snapshot.index.runs[i] == opened[i].run);
        assert(snapshot.files[i] == opened[i].files);
    }
}

/// A snapshot opens wherever it can: the manifest is there, within its bound, of
/// this format and the generation asked for, with valid descriptors, and the files
/// of each run are there as described.
pub proof fn lemma_snapshot_opens(graph_root_path: Seq<char>, sight: IndexSight, generation: u64)
    requires
        sight.manifest is Some,
        sight.manifest->0.bytes@.len() <= MAX_MANIFEST_BYTES,
        sight.parsed is Some,
        sight.parsed->0@.format_version == FORMAT_VERSION,
        sight.parsed->0@.current_generation == generation,
        crate::runs::descriptors_valid(sight.parsed->0@),
        forall|i: int|
            0 <= i < sight.parsed->0@.runs.len() ==> #[trigger] openable(
                sight.files@,
                sight.parsed->0@.runs[i],
            ),
    ensures
        opening(graph_root_path, sight, generation) is Ok,
{
    lemma_opened_from(sight.files@, sight.parsed->0@.runs);
}

/// Whether the first file of a name is still the one that was held, with no link
/// that it must not have.
pub open spec fn still_held(
    files: Seq<NamedFile>,
    name: Seq<char>,
    identity: FileIdentity,
) -> bool {
    exists|k: int| #[trigger]
        first_named(files, name, k) && files[k].file.identity == identity
            && files[k].file.links_safe
}

proof fn lemma_runs_held(
    sight: IndexSight,
    runs: Seq<RunModel>,
    files: Seq<RunFiles>,
)
    ensures
        runs_change(None, sight, runs, files) is None <==> forall|i: int|
            0 <= i < runs.len() ==> still_held(
                sight.files@,
                (#[trigger] runs[i]).run.identities.name,
                files[i].identities,
            ) && still_held(
                sight.files@,
                runs[i].run.node_surrogates.name,
                files[i].node_surrogates,
            ),
    decreases runs.len(),
{
    if runs.len() > 0 {
        let front = runs.drop_last();
        let last = runs.len() - 1;
        lemma_runs_held(sight, front, files);
        lemma_file_held(sight, runs[last].run.identities.name, files[last].identities);
        lemma_file_held(sight, runs[last].run.node_surrogates.name, files[last].node_surrogates);
        if runs_change(None, sight, runs, files) is None {
            assert forall|i: int| 0 <= i < runs.len() implies still_held(
                sight.files@,
                (#[trigger] runs[i]).run.identities.name,
                files[i].identities,
            ) && still_held(
                sight.files@,
                runs[i].run.node_surrogates.name,
                files[i].node_surrogates,
            ) by {
                if i < front.len() {
                    assert(front[i] == runs[i]);
                }
            }
        } else if runs_change(None, sight, front, files) is Some {
            let i = choose|i: int|
                0 <= i < front.len() && !(still_held(
                    sight.files@,
                    (#[trigger] front[i]).run.identities.name,
                    files[i].identities,
                ) && still_held(
                    sight.files@,
                    front[i].run.node_surrogates.name,
                    files[i].node_surrogates,
                ));
            assert(runs[i] == front[i]);
        }
    }
}

proof fn lemma_file_held(sight: IndexSight, name: Seq<char>, identity: FileIdentity)
    ensures
        run_file_change(None, sight, name, identity) is None <==> still_held(
            sight.files@,
            name,
            identity,
        ),
{
    lemma_first_named(sight.files@, name);
    if let Some(k) = first_at(sight.files@, name) {
        assert(first_named(sight.files@, name, k));
    }
}

/// A snapshot of an index root holds exactly as long as nothing under it has
/// changed: the roots are the same, its manifest is held, the named and the held
/// manifest are the one file it was opened with, which has one link, its recorded
/// digest and the contents that are known, and each file of each run is the one it
/// was.
pub proof fn lemma_snapshot_holds(snapshot: SnapshotModel, sight: IndexSight)
    requires
        snapshot.sources is None,
    ensures
        change(snapshot, sight) is None <==> {
            &&& sight.graph_root == snapshot.graph_root
            &&& sight.root == snapshot.root
            &&& snapshot.manifest_held
            &&& sight.held_manifest.identity == snapshot.manifest_identity
            &&& sight.held_manifest.links == 1
            &&& sight.manifest is Some
            &&& sight.manifest->0.identity == snapshot.manifest_identity
            &&& sight.manifest->0.links == 1
            &&& sight.manifest->0.bytes@.len() <= MAX_MANIFEST_BYTES
            &&& sha256_hex(sight.manifest->0.bytes@) == snapshot.manifest_sha256
            &&& vstd::utf8::encode_utf8(snapshot.manifest_sha256).len() == 64
            &&& sight.parsed is Some
            &&& sight.parsed->0@ == snapshot.index.manifest()
            &&& forall|i: int|
                0 <= i < snapshot.index.runs.len() ==> still_held(
                    sight.files@,
                    (#[trigger] snapshot.index.runs[i]).run.identities.name,
                    snapshot.files[i].identities,
                ) && still_held(
                    sight.files@,
                    snapshot.index.runs[i].run.node_surrogates.name,
                    snapshot.files[i].node_surrogates,
                )
        },
{
    lemma_runs_held(sight, snapshot.index.runs, snapshot.files);
}

/// A snapshot that takes its manifest back holds it only where the named file is
/// the one it let go of, unchanged; where it cannot, it stays without and keeps
/// all that it knows.
pub proof fn lemma_restoration(snapshot: SnapshotModel, sight: IndexSight)
    requires
        !snapshot.manifest_held,
    ensures
        ({
            let (after, fault) = restoring(snapshot, sight);
            &&& after.manifest_held <==> fault is None
            &&& fault is None ==> {
                &&& sight.manifest is Some
                &&& sight.manifest->0.identity == snapshot.manifest_identity
                &&& sight.manifest->0.links == 1
                &&& sha256_hex(sight.manifest->0.bytes@) == snapshot.manifest_sha256
                &&& sight.parsed is Some
                &&& sight.parsed->0@ == snapshot.index.manifest()
            }
            &&& after.index == snapshot.index
            &&& after.files == snapshot.files
            &&& after.manifest_identity == snapshot.manifest_identity
            &&& after.manifest_sha256 == snapshot.manifest_sha256
            &&& after.graph_root == snapshot.graph_root
            &&& after.root == snapshot.root
        }),
{
}

proof fn lemma_retained(runs: Seq<RunModel>, run: RunView)
    ensures
        match retained_at(runs, run) {
            Some(i) => 0 <= i < runs.len() && runs[i].run == run,
            None => forall|i: int| 0 <= i < runs.len() ==> (#[trigger] runs[i]).run != run,
        },
    decreases runs.len(),
{
    if runs.len() > 0 {
        let front = runs.drop_last();
        lemma_retained(front, run);
        assert(runs[runs.len() - 1] == runs.last());
        if let Some(i) = retained_at(front, run) {
            assert(front[i] == runs[i]);
        } else {
            assert forall|i: int| 0 <= i < front.len() implies (#[trigger] runs[i]).run != run by {
                assert(front[i] == runs[i]);
            }
        }
    }
}

proof fn lemma_advanced_from(snapshot: SnapshotModel, files: Seq<NamedFile>, runs: Seq<RunView>)
    ensures
        advanced_runs(snapshot, files, runs) matches Ok((opened, _)) ==> opened.len() == runs.len()
            && forall|i: int|
            0 <= i < runs.len() ==> (#[trigger] opened[i]).run.run == runs[i] && (
            snapshot.index.runs.contains(opened[i].run) || opened_from(
                opened[i].run,
                opened[i].files,
                runs[i],
                files,
            ) && opened[i].run.authentic()),
    decreases runs.len(),
{
    if runs.len() > 0 {
        let front = runs.drop_last();
        let last = runs.last();
        lemma_advanced_from(snapshot, files, front);
        lemma_retained(snapshot.index.runs, last);
        let one = seq![last];
        lemma_opened_from(files, one);
        assert(one.drop_last() =~= Seq::<RunView>::empty());
        assert(one.last() == last);
        if let Ok((opened, _)) = advanced_runs(snapshot, files, runs) {
            let before = advanced_runs(snapshot, files, front)->Ok_0.0;
            assert forall|i: int| 0 <= i < runs.len() implies (#[trigger] opened[i]).run.run
                == runs[i] && (snapshot.index.runs.contains(opened[i].run) || opened_from(
                opened[i].run,
                opened[i].files,
                runs[i],
                files,
            ) && opened[i].run.authentic()) by {
                if i < front.len() {
                    assert(opened[i] == before[i]);
                    assert(front[i] == runs[i]);
                } else if retained_at(snapshot.index.runs, last) is None {
                    let single = opened_runs(files, one);
                    assert(opened_runs(files, Seq::<RunView>::empty()) == Ok::<
                        Seq<OpenedModel>,
                        Seq<char>,
                    >(Seq::empty()));
                    assert(single->Ok_0[0] == opened[i]);
                    assert(one[0] == runs[i]);
                }
            }
        }
    }
}

/// A snapshot that follows a committed manifest becomes the index that the
/// manifest describes: the installed file has the digest of the planned one, and
/// each run is one that the snapshot already held or one whose files are what its
/// records say.
pub proof fn lemma_advance_authentic(
    snapshot: SnapshotModel,
    manifest: ManifestView,
    encoded: Seq<u8>,
    sight: IndexSight,
)
    requires
        advancing(snapshot, manifest, encoded, sight) is Ok,
        all_authentic(snapshot.index.runs),
    ensures
        ({
            let (after, bytes) = advancing(snapshot, manifest, encoded, sight)->Ok_0;
            &&& sight.manifest is Some
            &&& sha256_hex(sight.manifest->0.bytes@) == sha256_hex(encoded)
            &&& after.manifest_sha256 == sha256_hex(encoded)
            &&& after.manifest_identity == sight.manifest->0.identity
            &&& after.manifest_held
            &&& after.index.current_generation == manifest.current_generation
            &&& after.index.manifest() == manifest
            &&& after.graph_root == snapshot.graph_root
            &&& after.root == snapshot.root
            &&& all_authentic(after.index.runs)
        }),
{
    let (after, bytes) = advancing(snapshot, manifest, encoded, sight)->Ok_0;
    lemma_advanced_from(snapshot, sight.files@, manifest.runs);
    let opened = advanced_runs(snapshot, sight.files@, manifest.runs)->Ok_0.0;
    assert forall|i: int| 0 <= i < after.index.runs.len() implies (
    #[trigger] after.index.runs[i]).authentic() by {
        assert(after.index.runs[i] == opened[i].run);
        if snapshot.index.runs.contains(opened[i].run) {
            let k = choose|k: int|
                0 <= k < snapshot.index.runs.len() && snapshot.index.runs[k] == opened[i].run;
            assert(snapshot.index.runs[k].authentic());
        }
    }
    assert(after.index.manifest().runs =~= manifest.runs);
}

/// Whether an inventory leads to an object with the contents of a file: the first
/// entry of the file's path records its digest and a length, and an object is
/// stored under both.
pub open spec fn leads_to(
    inventory: Seq<InventoryEntry>,
    objects: Seq<SeenObject>,
    file: FileView,
    bytes: Seq<u8>,
    identity: FileIdentity,
) -> bool {
    exists|i: int, k: int|
        #![trigger inventory[i], objects[k]]
        {
            &&& 0 <= i < inventory.len()
            &&& 0 <= k < objects.len()
            &&& inventory[i].relative_path@ == INDEX_DIR@ + "/"@ + file.name
            &&& forall|j: int|
                0 <= j < i ==> (#[trigger] inventory[j]).relative_path@ != INDEX_DIR@ + "/"@
                    + file.name
            &&& inventory[i].content_sha256@ == file.sha256
            &&& objects[k].sha256@ == file.sha256
            &&& objects[k].length == inventory[i].byte_length
            &&& objects[k].file.bytes@ == bytes
            &&& objects[k].file.identity == identity
        }
}

pub(crate) proof fn lemma_first_entry(inventory: Seq<InventoryEntry>, path: Seq<char>)
    ensures
        first_at(inventory, path) matches Some(i) ==> 0 <= i < inventory.len()
            && inventory[i].relative_path@ == path && forall|j: int|
            0 <= j < i ==> (#[trigger] inventory[j]).relative_path@ != path,
        first_at(inventory, path) is None ==> forall|j: int|
            0 <= j < inventory.len() ==> (#[trigger] inventory[j]).relative_path@ != path,
    decreases inventory.len(),
{
    if inventory.len() > 0 {
        let front = inventory.drop_last();
        lemma_first_entry(front, path);
        if let Some(i) = first_at(front, path) {
            assert(front[i] == inventory[i]);
            assert forall|j: int| 0 <= j < i implies (#[trigger] inventory[j]).relative_path@
                != path by {
                assert(front[j] == inventory[j]);
            }
        } else {
            assert forall|j: int| 0 <= j < front.len() implies (
            #[trigger] inventory[j]).relative_path@ != path by {
                assert(front[j] == inventory[j]);
            }
        }
    }
}

proof fn lemma_object_found(objects: Seq<SeenObject>, sha256: Seq<char>, length: u64)
    ensures
        object_at(objects, sha256, length) matches Some(k) ==> 0 <= k < objects.len()
            && objects[k].sha256@ == sha256 && objects[k].length == length,
    decreases objects.len(),
{
    if objects.len() > 0 {
        lemma_object_found(objects.drop_last(), sha256, length);
    }
}

/// Whether a run was opened from the objects that an inventory leads to.
pub open spec fn leased_from(
    run: RunModel,
    held: RunFiles,
    described: RunView,
    inventory: Seq<InventoryEntry>,
    objects: Seq<SeenObject>,
) -> bool {
    &&& run.run == described
    &&& run.authentic()
    &&& matches_record::<Identity>(run.identities, described.identities)
    &&& matches_record::<NodeSurrogate>(run.node_surrogates, described.node_surrogates)
    &&& leads_to(inventory, objects, described.identities, run.identities, held.identities)
    &&& leads_to(
        inventory,
        objects,
        described.node_surrogates,
        run.node_surrogates,
        held.node_surrogates,
    )
}

pub(crate) proof fn lemma_leased_from(
    inventory: Seq<InventoryEntry>,
    objects: Seq<SeenObject>,
    runs: Seq<RunView>,
)
    ensures
        leased_runs(inventory, objects, runs) matches Ok(leased) ==> leased.len() == runs.len()
            && forall|i: int|
            0 <= i < runs.len() ==> leased_from(
                (#[trigger] leased[i]).opened.run,
                leased[i].opened.files,
                runs[i],
                inventory,
                objects,
            ),
    decreases runs.len(),
{
    if runs.len() > 0 {
        let front = runs.drop_last();
        let last = runs.last();
        lemma_leased_from(inventory, objects, front);
        if let Ok(leased) = leased_runs(inventory, objects, runs) {
            let before = leased_runs(inventory, objects, front)->Ok_0;
            let model = leased_run(inventory, objects, last)->Ok_0;
            let first = identity_length(last.identities);
            let second = surrogate_length(last.node_surrogates);
            lemma_first_entry(inventory, index_path(last.identities.name));
            lemma_first_entry(inventory, index_path(last.node_surrogates.name));
            lemma_object_found(objects, last.identities.sha256, first);
            lemma_object_found(objects, last.node_surrogates.sha256, second);
            lemma_described_matches::<Identity>(model.opened.run.identities, last.identities);
            lemma_described_matches::<NodeSurrogate>(
                model.opened.run.node_surrogates,
                last.node_surrogates,
            );
            let a = first_at(inventory, index_path(last.identities.name))->0;
            let b = first_at(inventory, index_path(last.node_surrogates.name))->0;
            let k = object_at(objects, last.identities.sha256, first)->0;
            let m = object_at(objects, last.node_surrogates.sha256, second)->0;
            assert(inventory[a].content_sha256@ == objects[k].sha256@);
            assert(inventory[b].content_sha256@ == objects[m].sha256@);
            assert(leased_from(
                model.opened.run,
                model.opened.files,
                last,
                inventory,
                objects,
            ));
            assert forall|i: int| 0 <= i < runs.len() implies leased_from(
                (#[trigger] leased[i]).opened.run,
                leased[i].opened.files,
                runs[i],
                inventory,
                objects,
            ) by {
                if i < front.len() {
                    assert(leased[i] == before[i]);
                    assert(front[i] == runs[i]);
                } else {
                    assert(leased[i] == model);
                }
            }
        }
    }
}

/// A snapshot of a compact index that opens is the index that its manifest
/// describes: of the generation that was asked for, each run with the bytes of the
/// objects that the inventory leads to, which are what its records say.
#[verifier::spinoff_prover]
#[verifier::rlimit(40)]
pub proof fn lemma_lease_authentic(
    graph_root_path: Seq<char>,
    inventory: Seq<InventoryEntry>,
    sight: IndexSight,
    generation: u64,
)
    requires
        leasing(graph_root_path, inventory, sight, generation) is Ok,
    ensures
        ({
            let snapshot = leasing(graph_root_path, inventory, sight, generation)->Ok_0;
            let manifest = sight.parsed->0@;
            &&& sight.parsed is Some
            &&& manifest.format_version == FORMAT_VERSION
            &&& manifest.current_generation == generation
            &&& snapshot.index.current_generation == generation
            &&& snapshot.graph_root == sight.graph_root
            &&& all_authentic(snapshot.index.runs)
            &&& snapshot.index.runs.len() == manifest.runs.len()
            &&& snapshot.files.len() == manifest.runs.len()
            &&& forall|i: int|
                0 <= i < manifest.runs.len() ==> leased_from(
                    #[trigger] snapshot.index.runs[i],
                    snapshot.files[i],
                    manifest.runs[i],
                    inventory,
                    sight.objects@,
                )
        }),
{
    let manifest = sight.parsed->0@;
    let snapshot = leasing(graph_root_path, inventory, sight, generation)->Ok_0;
    lemma_leased_from(inventory, sight.objects@, manifest.runs);
    let leased = leased_runs(inventory, sight.objects@, manifest.runs)->Ok_0;
    assert forall|i: int| 0 <= i < manifest.runs.len() implies leased_from(
        #[trigger] snapshot.index.runs[i],
        snapshot.files[i],
        manifest.runs[i],
        inventory,
        sight.objects@,
    ) by {
        assert(snapshot.index.runs[i] == leased[i].opened.run);
        assert(snapshot.files[i] == leased[i].opened.files);
    }
}

} // verus!
