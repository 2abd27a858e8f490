//! What a pinned index stands for, and what makes it another one.
use vstd::prelude::*;

use crate::bytes::lemma_be_bytes_len;
use crate::construction_stream::{
    ConstructionUuidIdentity, payload_authentic, payloads_authentic, pin_change, pinned_file,
    pinned_file_change, pinned_files, pinned_runs_change, pinning, PinModel, streams,
    UuidConstructionSnapshotWork,
};
use crate::digest::sha256_hex;
use crate::framing::{lemma_pack_scanned, pack, scan};
use crate::identity_codec::Identity;
use crate::index_format::{
    BlockView, file_described, FileView, FORMAT_VERSION, MAX_MANIFEST_BYTES, RunView, tile_at,
    tiles,
};
use crate::records::NodeSurrogate;
use crate::runs::descriptors_valid;
use crate::snapshot::{
    authenticated_blocks, authenticated_bytes, FileIdentity, first_at, identity_length, IndexSight,
    NamedFile, RunFiles, surrogate_length,
};
use crate::snapshot_laws::{
    first_named, lemma_described_matches, lemma_first_named, matches_block,
};
use crate::topology_delta::block_bytes;

verus! {

/// Whether a name stands for this file, and for it alone.
pub open spec fn alone_held(
    files: Seq<NamedFile>,
    name: Seq<char>,
    identity: FileIdentity,
) -> bool {
    exists|k: int| #[trigger]
        first_named(files, name, k) && files[k].file.identity == identity && files[k].file.links == 1
}

/// Whether both files of a run are these, and stand alone.
pub open spec fn run_held(seen: Seq<NamedFile>, run: RunView, files: RunFiles) -> bool {
    &&& alone_held(seen, run.identities.name, files.identities)
    &&& alone_held(seen, run.node_surrogates.name, files.node_surrogates)
}

/// Whether both files of a run are there, and stand alone.
pub open spec fn run_whole(seen: Seq<NamedFile>, run: RunView) -> bool {
    exists|files: RunFiles| #[trigger] run_held(seen, run, files)
}

proof fn lemma_pinned_file_held(files: Seq<NamedFile>, name: Seq<char>, identity: FileIdentity)
    ensures
        pinned_file_change(files, name, identity) is None <==> alone_held(files, name, identity),
        forall|linked: Seq<char>| #[trigger]
            pinned_file(files, name, linked) is Ok ==> alone_held(
                files,
                name,
                pinned_file(files, name, linked)->Ok_0,
            ),
        alone_held(files, name, identity) ==> forall|linked: Seq<char>| #[trigger]
            pinned_file(files, name, linked) == Ok::<FileIdentity, Seq<char>>(identity),
{
    lemma_first_named(files, name);
    if let Some(k) = first_at(files, name) {
        assert(first_named(files, name, k));
    }
}

proof fn lemma_pinned_runs_held(
    seen: Seq<NamedFile>,
    runs: Seq<RunView>,
    files: Seq<RunFiles>,
)
    ensures
        pinned_runs_change(seen, runs, files) is None <==> forall|i: int|
            0 <= i < runs.len() ==> run_held(seen, #[trigger] runs[i], files[i]),
    decreases runs.len(),
{
    if runs.len() > 0 {
        let front = runs.drop_last();
        let last = runs.len() - 1;
        lemma_pinned_runs_held(seen, front, files);
        lemma_pinned_file_held(seen, runs[last].identities.name, files[last].identities);
        lemma_pinned_file_held(seen, runs[last].node_surrogates.name, files[last].node_surrogates);
        if pinned_runs_change(seen, runs, files) is None {
            assert forall|i: int| 0 <= i < runs.len() implies run_held(
                seen,
                #[trigger] runs[i],
                files[i],
            ) by {
                if i < last {
                    assert(front[i] == runs[i]);
                }
            }
        } else if forall|i: int|
            0 <= i < runs.len() ==> run_held(seen, #[trigger] runs[i], files[i]) {
            assert(run_held(seen, runs[last], files[last]));
            assert forall|i: int| 0 <= i < front.len() implies run_held(
                seen,
                #[trigger] front[i],
                files[i],
            ) by {
                assert(runs[i] == front[i]);
            }
        }
    }
}

/// A pinned index is the one that was pinned exactly as long as its root, its
/// manifest and every file of its runs are: the held and the named manifest are the
/// one file, it has its digest and says what it said, and no file has another link.
pub proof fn lemma_pin_holds(pin: PinModel, sight: IndexSight)
    ensures
        pin_change(pin, sight) is None <==> {
            &&& sight.root == pin.root
            &&& sight.held_manifest.identity == pin.manifest_identity
            &&& sight.held_manifest.links == 1
            &&& sight.manifest is Some
            &&& sight.manifest->0.bytes@.len() <= MAX_MANIFEST_BYTES
            &&& sight.manifest->0.identity == pin.manifest_identity
            &&& sha256_hex(sight.manifest->0.bytes@) == pin.manifest_sha256
            &&& sight.parsed is Some
            &&& sight.parsed->0@ == pin.manifest
            &&& forall|i: int|
                0 <= i < pin.manifest.runs.len() ==> run_held(
                    sight.files@,
                    #[trigger] pin.manifest.runs[i],
                    pin.files[i],
                )
        },
{
    lemma_pinned_runs_held(sight.files@, pin.manifest.runs, pin.files);
}

proof fn lemma_files_pinned(seen: Seq<NamedFile>, runs: Seq<RunView>)
    ensures
        pinned_files(seen, runs) matches Ok(files) ==> files.len() == runs.len() && forall|i: int|
            0 <= i < runs.len() ==> run_held(seen, #[trigger] runs[i], files[i]),
        (forall|i: int| 0 <= i < runs.len() ==> run_whole(seen, #[trigger] runs[i]))
            ==> pinned_files(seen, runs) is Ok,
    decreases runs.len(),
{
    if runs.len() > 0 {
        let front = runs.drop_last();
        let last = runs.last();
        lemma_files_pinned(seen, front);
        if let Ok(files) = pinned_files(seen, runs) {
            let own = files.last();
            lemma_pinned_file_held(seen, last.identities.name, own.identities);
            lemma_pinned_file_held(seen, last.node_surrogates.name, own.node_surrogates);
            assert forall|i: int| 0 <= i < runs.len() implies run_held(
                seen,
                #[trigger] runs[i],
                files[i],
            ) by {
                if i < front.len() {
                    assert(front[i] == runs[i]);
                }
            }
        }
        if forall|i: int| 0 <= i < runs.len() ==> run_whole(seen, #[trigger] runs[i]) {
            assert forall|i: int| 0 <= i < front.len() implies run_whole(
                seen,
                #[trigger] front[i],
            ) by {
                assert(runs[i] == front[i]);
            }
            assert(run_whole(seen, runs[runs.len() - 1]));
            let own = choose|files: RunFiles| #[trigger] run_held(seen, last, files);
            lemma_pinned_file_held(seen, last.identities.name, own.identities);
            lemma_pinned_file_held(seen, last.node_surrogates.name, own.node_surrogates);
        }
    }
}

/// An index is pinned only where it stands whole: its manifest is the one of the
/// generation and the file that is held, it describes its runs soundly, and each of
/// their files is there with no other link. The pin remembers each of these, and
/// nothing of its payload has been read.
pub proof fn lemma_pin_authentic(sight: IndexSight, generation: u64)
    ensures
        pinning(sight, generation) is Ok <==> {
            &&& sight.manifest is Some
            &&& sight.manifest->0.bytes@.len() <= MAX_MANIFEST_BYTES
            &&& sight.held_manifest.identity == sight.manifest->0.identity
            &&& sight.held_manifest.links == 1
            &&& sight.parsed is Some
            &&& sight.parsed->0@.format_version == FORMAT_VERSION
            &&& sight.parsed->0@.current_generation == generation
            &&& descriptors_valid(sight.parsed->0@)
            &&& forall|i: int|
                0 <= i < sight.parsed->0@.runs.len() ==> run_whole(
                    sight.files@,
                    #[trigger] sight.parsed->0@.runs[i],
                )
        },
        pinning(sight, generation) matches Ok(pin) ==> {
            &&& pin.root == sight.root
            &&& pin.manifest_identity == sight.manifest->0.identity
            &&& pin.manifest_sha256 == sha256_hex(sight.manifest->0.bytes@)
            &&& pin.manifest == sight.parsed->0@
            &&& pin.manifest.current_generation == generation
            &&& !pin.payload_consumed
            &&& pin.files.len() == pin.manifest.runs.len()
            &&& forall|i: int|
                0 <= i < pin.manifest.runs.len() ==> run_held(
                    sight.files@,
                    #[trigger] pin.manifest.runs[i],
                    pin.files[i],
                )
        },
{
    if sight.parsed is Some {
        let runs = sight.parsed->0@.runs;
        lemma_files_pinned(sight.files@, runs);
        if let Ok(files) = pinned_files(sight.files@, runs) {
            lemma_pinned_runs_held(sight.files@, runs, files);
            assert forall|i: int| 0 <= i < runs.len() implies run_whole(
                sight.files@,
                #[trigger] runs[i],
            ) by {
                assert(run_held(sight.files@, runs[i], files[i]));
            }
        }
    }
}

/// The bytes of the file that a name stands for.
pub open spec fn bytes_of(files: Seq<NamedFile>, name: Seq<char>) -> Seq<u8> {
    files[choose|k: int| first_named(files, name, k)].file.bytes@
}

/// How long the files of some runs are together.
pub open spec fn payload_length(files: Seq<NamedFile>, runs: Seq<RunView>) -> nat
    decreases runs.len(),
{
    if runs.len() == 0 {
        0
    } else {
        payload_length(files, runs.drop_last()) + bytes_of(
            files,
            runs.last().identities.name,
        ).len() + bytes_of(files, runs.last().node_surrogates.name).len()
    }
}

/// How many blocks the files of some runs are cut into together.
pub open spec fn payload_blocks(runs: Seq<RunView>) -> nat
    decreases runs.len(),
{
    if runs.len() == 0 {
        0
    } else {
        payload_blocks(runs.drop_last()) + runs.last().identities.blocks.len()
            + runs.last().node_surrogates.blocks.len()
    }
}

proof fn lemma_bytes_of(files: Seq<NamedFile>, name: Seq<char>)
    requires
        first_at(files, name) is Some,
    ensures
        bytes_of(files, name) == files[first_at(files, name)->0].file.bytes@,
{
    lemma_first_named(files, name);
    assert(first_named(files, name, first_at(files, name)->0));
}

proof fn lemma_blocks_reach(blocks: Seq<BlockView>, total: nat, n: int)
    requires
        tiles(blocks, total),
        0 <= n <= blocks.len(),
        total <= u64::MAX,
        forall|i: int| 0 <= i < blocks.len() ==> (#[trigger] blocks[i]).offset + blocks[i].len
            <= total,
    ensures
        block_bytes(0, blocks.take(n)) == if n < blocks.len() {
            blocks[n].offset as int
        } else {
            total as int
        },
    decreases n,
{
    if n > 0 {
        lemma_blocks_reach(blocks, total, n - 1);
        assert(blocks.take(n).drop_last() =~= blocks.take(n - 1));
        assert(tile_at(blocks, total, n - 1));
    }
}

proof fn lemma_identity_length(bytes: Seq<u8>, file: FileView)
    requires
        file_described::<Identity>(bytes, file),
        bytes.len() <= u64::MAX,
    ensures
        identity_length(file) == bytes.len(),
{
    lemma_described_matches::<Identity>(bytes, file);
    let blocks = file.blocks;
    assert forall|i: int| 0 <= i < blocks.len() implies (#[trigger] blocks[i]).offset
        + blocks[i].len <= bytes.len() by {
        assert(matches_block::<Identity>(bytes, blocks[i]));
    }
    lemma_blocks_reach(blocks, bytes.len(), blocks.len() as int);
    assert(blocks.take(blocks.len() as int) =~= blocks);
}

proof fn lemma_surrogates_packed(records: Seq<NodeSurrogate>)
    ensures
        pack(records).len() == 24 * records.len(),
    decreases records.len(),
{
    if records.len() > 0 {
        lemma_surrogates_packed(records.skip(1));
        lemma_be_bytes_len(records[0].surrogate as nat, 8);
        lemma_be_bytes_len(records[0].uuid as nat, 16);
    }
}

proof fn lemma_surrogate_length(bytes: Seq<u8>, file: FileView)
    requires
        file_described::<NodeSurrogate>(bytes, file),
        bytes.len() <= u64::MAX,
    ensures
        surrogate_length(file) == bytes.len(),
{
    lemma_pack_scanned::<NodeSurrogate>(bytes);
    lemma_surrogates_packed(scan::<NodeSurrogate>(bytes).0);
}

proof fn lemma_payload_counted(total: u64, blocks: u64, files: Seq<NamedFile>, runs: Seq<RunView>)
    requires
        payloads_authentic(files, runs),
        total + payload_length(files, runs) <= u64::MAX,
        blocks + payload_blocks(runs) <= u64::MAX,
    ensures
        authenticated_bytes(total, runs) == total + payload_length(files, runs),
        authenticated_blocks(blocks, runs) == blocks + payload_blocks(runs),
    decreases runs.len(),
{
    if runs.len() > 0 {
        let front = runs.drop_last();
        let last = runs.last();
        assert forall|i: int| 0 <= i < front.len() implies payload_authentic(
            files,
            #[trigger] front[i],
        ) by {
            assert(runs[i] == front[i]);
        }
        assert(payload_authentic(files, runs[runs.len() - 1]));
        lemma_payload_counted(total, blocks, files, front);
        lemma_bytes_of(files, last.identities.name);
        lemma_bytes_of(files, last.node_surrogates.name);
        lemma_identity_length(bytes_of(files, last.identities.name), last.identities);
        lemma_surrogate_length(bytes_of(files, last.node_surrogates.name), last.node_surrogates);
    }
}

/// A stream tells the work of authenticating it: the bytes of the manifest and of
/// every file of every run, one block for the manifest and all the blocks of the
/// files.
pub proof fn lemma_stream_work(
    pin: PinModel,
    sight: IndexSight,
    identities: Seq<ConstructionUuidIdentity>,
    work: UuidConstructionSnapshotWork,
)
    requires
        streams(pin, sight, identities, work),
        payloads_authentic(sight.files@, pin.manifest.runs),
        pin.manifest_bytes + payload_length(sight.files@, pin.manifest.runs) <= u64::MAX,
        1 + payload_blocks(pin.manifest.runs) <= u64::MAX,
    ensures
        work.authentication_bytes == pin.manifest_bytes + payload_length(
            sight.files@,
            pin.manifest.runs,
        ),
        work.authentication_blocks == 1 + payload_blocks(pin.manifest.runs),
{
    lemma_payload_counted(pin.manifest_bytes, 1, sight.files@, pin.manifest.runs);
}

} // verus!
