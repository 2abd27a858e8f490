//! What a selected authority rests on, and what a refusal tells.
use vstd::prelude::*;
use vstd::utf8::*;

use crate::bytes::{ascii, ends_with, is_lower_hex, lemma_ascii_utf8, starts_with};
use crate::construction::stream_fails;
use crate::construction_laws::{canonical_rows, lemma_stream_accepted};
use crate::construction_stream::{
    all_records, is_newest, payloads_authentic, pin_change, PinModel, streamed,
};
use crate::digest::sha256_hex;
use crate::error::GfError;
use crate::framing::scan;
use crate::identity_codec::Identity;
use crate::index_format::ManifestView;
use crate::maintenance::{AuthenticatedV3MembershipAuthority, SelectedManifest, selects};
use crate::migration::is_node_topology_path;
use crate::ordinal_format::views;
use crate::plan_cleanup::{CleanupModel, PlanCleanup, reclaims};
use crate::private_names::lemma_lower_hex_characters;
use crate::private_residue::{cleans, PrivateCleanup};
use crate::probe_laws::{lemma_kind_counted, lemma_run_matches, of_kind, run_matches};
use crate::probing::{
    all_authentic, is_distinct, joined_runs, lemma_walk_is_membership, open_states, probe_failed,
    probe_walk, run_fails, run_fault, RunContents, runs_fail, start_metrics, UuidIndexKind,
    walk_fails,
};
use crate::receipts::TopologyIndexReceipt;
use crate::records::ConstructionRow;
use crate::references::lemma_utf8_joined;
use crate::runs::RunModel;
use crate::snapshot::IndexSight;
use crate::vector_store::{
    published_dimension, published_outcome, PublishedSearchArtifact, SearchArtifactError,
    SearchArtifactKey, snapshot_outcome, VectorBatch, VectorStoreLimits,
};
use crate::verify_laws::is_hex;
use crate::workspace_composition::{framing_fault, staging_fault, tagged_digest};

verus! {

/// Whether a receipt and a manifest are those of one generation: the receipt names
/// the generation, its digests and its nonce are well formed, and the manifest has
/// the digest that the receipt and its own record tell.
pub open spec fn vouches(
    receipt: TopologyIndexReceipt,
    manifest: SelectedManifest,
    generation: u64,
) -> bool {
    &&& receipt@.expected_generation == generation
    &&& receipt@.manifest_sha256 == sha256_hex(manifest.body@)
    &&& manifest.content_sha256@ == sha256_hex(manifest.body@)
    &&& is_hex(receipt@.nonce, 32)
    &&& is_hex(receipt@.topology_delta_sha256, 64)
    &&& is_hex(receipt@.manifest_sha256, 64)
}

/// A selected authority is one generation and one manifest that a receipt vouches
/// for. There is none exactly where neither a receipt nor a manifest is selected,
/// and one of the two alone is refused, as is a receipt that does not vouch.
pub proof fn lemma_authority_selected(
    result: Result<Option<AuthenticatedV3MembershipAuthority>, GfError>,
    receipt: Option<TopologyIndexReceipt>,
    manifest: Option<SelectedManifest>,
    generation: Option<Option<u64>>,
)
    requires
        selects(result, receipt, manifest, generation),
    ensures
        result matches Ok(None) <==> receipt is None && manifest is None,
        (result is Ok && result->Ok_0 is Some) <==> receipt is Some && manifest is Some
            && generation is Some && generation->0 is Some && vouches(
            receipt->0,
            manifest->0,
            generation->0->0,
        ),
        result matches Ok(Some(authority)) ==> authority.topology_generation == generation->0->0
            && authority.manifest_sha256@ == sha256_hex(manifest->0.body@),
{
    if let (Some(receipt), Some(manifest)) = (receipt, manifest) {
        lemma_lower_hex_characters(receipt@.nonce, 32);
        lemma_lower_hex_characters(receipt@.topology_delta_sha256, 64);
        lemma_lower_hex_characters(receipt@.manifest_sha256, 64);
    }
}

/// A cleanup tells what was removed and whether it went wrong.
pub proof fn lemma_cleanup_told(
    cleanup: PrivateCleanup,
    outcome: (Seq<Seq<char>>, Option<Seq<char>>),
)
    requires
        cleans(cleanup, outcome),
    ensures
        views(cleanup.removed@) == outcome.0,
        cleanup.fault is None <==> outcome.1 is None,
        cleanup.fault is Some ==> cleanup.fault->0.is_storage(outcome.1->0),
{
}

/// A reclaimed namespace is told as it is.
pub proof fn lemma_reclaimed_told(cleanup: PlanCleanup, model: CleanupModel)
    requires
        reclaims(cleanup, model),
    ensures
        cleanup.directories == model.directories,
        cleanup.files == model.files,
        cleanup.fault is None <==> model.fault is None,
        cleanup.fault is Some ==> cleanup.fault->0.is_storage(model.fault->0),
{
}

/// A construction stream is refused only where it ends within a row or its rows are
/// not canonical.
pub proof fn lemma_stream_refused(input: Seq<u8>, error: GfError)
    requires
        stream_fails(input, error),
    ensures
        scan::<ConstructionRow>(input).1 is Some || !canonical_rows(
            scan::<ConstructionRow>(input).0,
        ),
{
    lemma_stream_accepted(input);
}

/// Whether the newest records of an index do not fit its manifest: a live node lacks
/// a surrogate, or the live nodes or edges are not as many as it counts.
pub open spec fn misfits(records: Seq<Identity>, manifest: ManifestView) -> bool {
    ||| exists|i: int|
        0 <= i < records.len() && (#[trigger] records[i]).kind == 0 && records[i].surrogate == 0
    ||| of_kind(records, 0).len() != manifest.live_node_count
    ||| of_kind(records, 1).len() != manifest.live_edge_count
}

/// Reading a pinned index is refused only where it was read before, it changed
/// before or after, a file of it is not what it was, or its newest records do not
/// fit its manifest.
pub proof fn lemma_reading_refused(
    pin: PinModel,
    before: IndexSight,
    after: IndexSight,
    error: GfError,
)
    requires
        crate::construction_stream::stream_fails(pin, before, after, error),
    ensures
        ({
            ||| pin.payload_consumed
            ||| pin_change(pin, before) is Some
            ||| !payloads_authentic(before.files@, pin.manifest.runs)
            ||| exists|merged: Seq<Identity>| #[trigger]
                is_newest(merged, all_records(before.files@, pin.manifest.runs)) && misfits(
                    merged,
                    pin.manifest,
                )
            ||| pin_change(pin, after) is Some
        }),
{
    if !pin.payload_consumed && pin_change(pin, before) is None && payloads_authentic(
        before.files@,
        pin.manifest.runs,
    ) && pin_change(pin, after) is None {
        let runs = all_records(before.files@, pin.manifest.runs);
        let merged = choose|merged: Seq<Identity>| #[trigger]
            is_newest(merged, runs) && (streamed(pin, merged) matches Err(text)
                && error.is_storage(text));
        lemma_kind_counted(merged, 0);
        lemma_kind_counted(merged, 1);
        if exists|i: int|
            0 <= i < merged.len() && crate::construction_stream::lacks_surrogate(
                #[trigger] merged[i],
            ) {
            let i = choose|i: int|
                0 <= i < merged.len() && crate::construction_stream::lacks_surrogate(
                    #[trigger] merged[i],
                );
            assert(merged[i].kind == 0 && merged[i].surrogate == 0);
        }
        assert(misfits(merged, pin.manifest));
    }
}

/// A probe of an authentic index always answers.
pub proof fn lemma_probe_answered(
    runs: Seq<RunModel>,
    kind: UuidIndexKind,
    requested: Seq<u128>,
    error: GfError,
)
    requires
        all_authentic(runs),
    ensures
        !probe_failed(runs, kind, false, requested, error),
{
    if probe_failed(runs, kind, false, requested, error) {
        let unique = choose|unique: Seq<u128>| #[trigger]
            is_distinct(unique, requested) && walk_fails(
                probe_walk(
                    runs,
                    kind,
                    false,
                    unique,
                    open_states(unique.len()),
                    start_metrics(requested.len() as u64, unique.len() as u64),
                ),
                error,
            );
        lemma_walk_is_membership(
            runs,
            kind,
            false,
            unique,
            open_states(unique.len()),
            start_metrics(requested.len() as u64, unique.len() as u64),
        );
    }
}

/// An index is refused for its runs only where a file of one is not what its record
/// says.
pub proof fn lemma_runs_refused(
    manifest: ManifestView,
    contents: Seq<RunContents>,
    error: GfError,
)
    requires
        runs_fail(joined_runs(manifest, contents), error),
    ensures
        exists|i: int|
            0 <= i < manifest.runs.len() && !run_matches(#[trigger] manifest.runs[i], contents[i]),
{
    let runs = joined_runs(manifest, contents);
    let i = choose|i: int|
        0 <= i < runs.len() && run_fails(runs, i, error) && forall|j: int|
            0 <= j < i ==> run_fault(runs[j]) is None;
    lemma_run_matches(manifest.runs[i], contents[i]);
    assert(!run_matches(manifest.runs[i], contents[i]));
}

/// Published vectors are read exactly where their record gives a dimension and the
/// snapshot is usable with it, and then as the snapshot says.
pub proof fn lemma_published_read(
    artifact: PublishedSearchArtifact,
    key: Result<SearchArtifactKey, SearchArtifactError>,
    file_bytes: u64,
    batches: Seq<VectorBatch>,
    data_path: Seq<char>,
    limits: VectorStoreLimits,
)
    ensures
        ({
            let read = published_outcome(artifact, key, file_bytes, batches, data_path, limits);
            match published_dimension(artifact, key) {
                Ok(dimension) => read == snapshot_outcome(
                    file_bytes,
                    batches,
                    dimension as usize,
                    limits,
                    data_path,
                ),
                Err(_) => read is Err,
            }
        }),
{
}

/// A text is a tagged digest where it is `sha256:` and 64 lowercase hexadecimal
/// digits.
pub proof fn lemma_tagged_characters(text: Seq<char>)
    ensures
        tagged_digest(text) <==> text.len() == 71 && text.take(7) == "sha256:"@ && is_hex(
            text.skip(7),
            64,
        ),
{
    let bytes = encode_utf8(text);
    reveal_strlit("sha256:");
    let tag = encode_utf8("sha256:"@);
    assert(is_ascii_chars("sha256:"@));
    is_ascii_chars_encode_utf8("sha256:"@);
    assert(tag.len() == 7);
    if tagged_digest(text) {
        assert forall|i: int| 0 <= i < bytes.len() implies #[trigger] bytes[i] < 128 by {
            if i < 7 {
                assert(bytes[i] == bytes.take(7)[i]);
                assert(tag[i] == "sha256:"@[i] as u8);
            } else {
                assert(is_lower_hex(bytes.skip(7)[i - 7]));
            }
        }
        lemma_ascii_utf8(bytes);
        encode_utf8_decode_utf8(text);
        encode_utf8_decode_utf8(ascii(bytes));
        assert(text == ascii(bytes));
        assert forall|i: int| 0 <= i < 7 implies text.take(7)[i] == #[trigger] "sha256:"@[i] by {
            assert(bytes[i] == bytes.take(7)[i]);
            assert(tag[i] == "sha256:"@[i] as u8);
        }
        assert(text.take(7) =~= "sha256:"@);
        assert forall|i: int| 0 <= i < 64 implies ('0' <= #[trigger] text.skip(7)[i] <= '9' || 'a'
            <= text.skip(7)[i] <= 'f') by {
            assert(is_lower_hex(bytes.skip(7)[i]));
        }
    }
    if text.len() == 71 && text.take(7) == "sha256:"@ && is_hex(text.skip(7), 64) {
        let digits = text.skip(7);
        lemma_lower_hex_characters(digits, 64);
        lemma_utf8_joined("sha256:"@, digits);
        assert(text =~= "sha256:"@ + digits);
        assert(bytes.take(7) =~= tag);
        assert(bytes.skip(7) =~= encode_utf8(digits));
    }
}

/// A staging record is accepted exactly where it has the contract version and both
/// its digests are tagged.
pub proof fn lemma_staging_accepted(
    contract_version: u32,
    package: Seq<char>,
    composition: Seq<char>,
)
    ensures
        staging_fault(contract_version, package, composition) is None <==> {
            &&& contract_version == 1
            &&& package.len() == 71 && package.take(7) == "sha256:"@ && is_hex(package.skip(7), 64)
            &&& composition.len() == 71 && composition.take(7) == "sha256:"@ && is_hex(
                composition.skip(7),
                64,
            )
        },
{
    lemma_tagged_characters(package);
    lemma_tagged_characters(composition);
}

/// A record is framed canonically exactly where it ends with its only line feed and
/// is what its contents are written as.
pub proof fn lemma_framing_accepted(bytes: Seq<u8>, again: Option<Seq<u8>>, name: Seq<char>)
    ensures
        framing_fault(bytes, again, name) is None <==> {
            &&& bytes.len() > 0
            &&& forall|i: int| 0 <= i < bytes.len() ==> (#[trigger] bytes[i] == 10 <==> i
                == bytes.len() - 1)
            &&& again == Some(bytes)
        },
{
    if framing_fault(bytes, again, name) is None {
        assert forall|i: int| 0 <= i < bytes.len() implies (#[trigger] bytes[i] == 10 <==> i
            == bytes.len() - 1) by {
            if i < bytes.len() - 1 {
                assert(bytes.drop_last()[i] != 10);
            }
        }
    }
}

/// A path is that of canonical node topology where it is the one file, or a file
/// directly in the directory whose name ends as a table's does.
pub proof fn lemma_topology_path(path: Seq<char>)
    ensures
        is_node_topology_path(path) <==> path == "topology/nodes.parquet"@ || exists|
            name: Seq<u8>,
        |
            !name.contains(47u8) && encode_utf8(path) == #[trigger] (encode_utf8("topology/nodes/"@)
                + name + encode_utf8(".parquet"@)),
{
    let bytes = encode_utf8(path);
    let directory = encode_utf8("topology/nodes/"@);
    let suffix = encode_utf8(".parquet"@);
    let d = directory.len() as int;
    reveal_strlit(".parquet");
    assert(is_ascii_chars(".parquet"@));
    is_ascii_chars_encode_utf8(".parquet"@);
    assert forall|i: int| 0 <= i < suffix.len() implies #[trigger] suffix[i] != 47 by {
        assert(suffix[i] == ".parquet"@[i] as u8);
    }
    if is_node_topology_path(path) && path != "topology/nodes.parquet"@ {
        let whole = bytes.skip(d);
        let n = whole.len() - suffix.len();
        let name = whole.take(n);
        assert(whole.skip(n) == suffix);
        assert(bytes.take(d) == directory);
        assert(bytes =~= directory + name + suffix);
        assert forall|i: int| 0 <= i < name.len() implies #[trigger] name[i] != 47 by {
            assert(whole[i] == name[i]);
            assert(whole[i] == 47 ==> whole.contains(47u8));
        }
        assert(!name.contains(47u8));
    }
    if exists|name: Seq<u8>|
        !name.contains(47u8) && bytes == #[trigger] (directory + name + suffix) {
        let name = choose|name: Seq<u8>|
            !name.contains(47u8) && bytes == #[trigger] (directory + name + suffix);
        let whole = bytes.skip(d);
        assert(whole =~= name + suffix);
        assert(bytes.take(d) =~= directory);
        assert(whole.skip(whole.len() - suffix.len()) =~= suffix);
        assert forall|i: int| 0 <= i < whole.len() implies #[trigger] whole[i] != 47 by {
            if i < name.len() {
                assert(whole[i] == name[i]);
                assert(name[i] == 47 ==> name.contains(47u8));
            } else {
                assert(whole[i] == suffix[i - name.len()]);
            }
        }
        assert(!whole.contains(47u8));
        assert(starts_with(bytes, directory));
        assert(ends_with(whole, suffix));
    }
}

} // verus!
