//! What an ordinal delta must be to be planned, and what a rebuilt ordinal identity
//! and a publication hold.
use vstd::prelude::*;

use crate::digest::sha256_hex;
use crate::external_sort::{repeats, UuidIndexBuildLimits};
use crate::framing::decode_outcome;
use crate::keyed::{
    has_key, key_determines, key_order, Keyed, lemma_key_order, ordered, same_items, share_key,
};
use crate::ordinal_delta::{
    as_surrogates, delta_fault, delta_outcome, DeltaInput, first_zero, is_zero, lemma_meets,
    lemma_run_repeats_all, range_holds, ranges_hold, reuse_fault,
};
use crate::ordinal_construction::{BundleModel, id_runs};
use crate::ordinal_format::{
    ArtifactFileView, ArtifactView, held, manifest_artifacts, OrdinalManifestView,
};
use crate::ordinal_history::{lemma_stream_maps, mapped, recorded, run_writes, Store};
use crate::ordinal_manifest::{manifest_form, V4OrdinalBounds};
use crate::ordinal_publication::{
    artifact_outputs, merged_outcome, OutputView, publication_outcome,
};
use crate::ordinal_rebuild::{projection_fault, staging_outcome};
use crate::private_names::lemma_lower_hex_characters;
use crate::rebuild::{mapping_rows, node_mappings, NodeRow, scan_fault, ScanRow};
use crate::rebuild_laws::{lemma_scanned, names_node};
use crate::records::{ForwardRecord, NodeSurrogate, NodeTombstone};
use crate::verify_laws::is_hex;

verus! {

proof fn lemma_first_zero(nodes: Seq<ForwardRecord>)
    ensures
        first_zero(nodes) < nodes.len(),
        first_zero(nodes) >= 0 || forall|i: int|
            0 <= i < nodes.len() ==> (#[trigger] nodes[i]).uuid != 0 && nodes[i].node_id != 0,
        first_zero(nodes) >= 0 || first_zero(nodes) == -1,
    decreases nodes.len(),
{
    if nodes.len() > 0 {
        let front = nodes.drop_last();
        lemma_first_zero(front);
        if first_zero(nodes) < 0 {
            assert forall|i: int| 0 <= i < nodes.len() implies (#[trigger] nodes[i]).uuid != 0
                && nodes[i].node_id != 0 by {
                if i < front.len() {
                    assert(front[i] == nodes[i]);
                } else {
                    assert(!is_zero(nodes.last()));
                }
            }
        }
    }
}

proof fn lemma_no_repeats<T: Keyed>(items: Seq<T>)
    requires
        !repeats(items),
    ensures
        key_determines(items),
        ordered(key_order(items)),
        same_items(key_order(items), items),
{
    assert forall|i: int, j: int|
        0 <= i < items.len() && 0 <= j < items.len() && (#[trigger] items[i]).key() == (
        #[trigger] items[j]).key() implies items[i] == items[j] by {
        if i < j || j < i {
            assert(repeats(items));
        }
    }
    lemma_key_order(items);
}

/// Whether no retained forward artifact maps the UUID of a node.
pub open spec fn unmapped(
    forwards: Seq<ArtifactView>,
    pinned: Seq<ArtifactFileView>,
    uuid: u128,
) -> bool {
    forall|f: int|
        0 <= f < forwards.len() ==> match held(pinned, (#[trigger] forwards[f]).name) {
            Some(content) => match decode_outcome::<ForwardRecord>(content) {
                Ok(prior) => ordered(prior) ==> forall|k: int|
                    0 <= k < prior.len() ==> (#[trigger] prior[k]).uuid != uuid,
                Err(_) => false,
            },
            None => false,
        }
}

proof fn lemma_reuse(
    forwards: Seq<ArtifactView>,
    pinned: Seq<ArtifactFileView>,
    fresh: Seq<ForwardRecord>,
    at: int,
)
    requires
        reuse_fault(forwards, pinned, fresh) is None,
        ordered(fresh),
        0 <= at < fresh.len(),
    ensures
        unmapped(forwards, pinned, fresh[at].uuid),
    decreases forwards.len(),
{
    if forwards.len() > 0 {
        let front = forwards.drop_last();
        lemma_reuse(front, pinned, fresh, at);
        let content = held(pinned, forwards.last().name)->0;
        let last = decode_outcome::<ForwardRecord>(content)->Ok_0;
        assert forall|f: int| 0 <= f < forwards.len() implies match held(
            pinned,
            (#[trigger] forwards[f]).name,
        ) {
            Some(content) => match decode_outcome::<ForwardRecord>(content) {
                Ok(prior) => ordered(prior) ==> forall|k: int|
                    0 <= k < prior.len() ==> (#[trigger] prior[k]).uuid != fresh[at].uuid,
                Err(_) => false,
            },
            None => false,
        } by {
            if f < front.len() {
                assert(front[f] == forwards[f]);
            } else if ordered(last) {
                lemma_meets(last, fresh);
                assert forall|k: int| 0 <= k < last.len() implies (#[trigger] last[k]).uuid
                    != fresh[at].uuid by {
                    if last[k].uuid == fresh[at].uuid {
                        assert(fresh[at].key() == last[k].key());
                        assert(has_key(fresh, last[k].key()));
                        assert(share_key(last, fresh));
                    }
                }
            }
        }
    }
}

/// An ordinal delta is planned only where it continues what is there. It is of
/// the next generation and bears a digest. Its nodes have a UUID and an identifier
/// other than nil, each once; no retained artifact maps one of the UUIDs, and all
/// identifiers lie above those that were given before. What it deletes was given,
/// each once.
pub proof fn lemma_ordinal_delta_fits(input: DeltaInput)
    requires
        delta_outcome(input) is Ok,
    ensures
        input.generation == input.current + 1,
        input.manifest.topology_generation == input.current,
        is_hex(input.digest, 64),
        forall|i: int|
            0 <= i < input.nodes.len() ==> (#[trigger] input.nodes[i]).uuid != 0
                && input.nodes[i].node_id != 0,
        forall|i: int, j: int|
            0 <= i < j < input.nodes.len() ==> (#[trigger] input.nodes[i]).uuid != (
            #[trigger] input.nodes[j]).uuid && input.nodes[i].node_id != input.nodes[j].node_id,
        forall|i: int|
            0 <= i < input.nodes.len() ==> unmapped(
                input.manifest.forward,
                input.pinned,
                (#[trigger] input.nodes[i]).uuid,
            ),
        forall|i: int|
            0 <= i < input.nodes.len() && input.manifest.ranges.len() > 0 ==> ({
                let last = input.manifest.ranges.last();
                &&& (#[trigger] input.nodes[i]).node_id > last.first_node_id
                &&& input.nodes[i].node_id >= last.first_node_id + last.count
            }),
        forall|i: int|
            0 <= i < input.deleted.len() ==> (#[trigger] input.deleted[i]).node_id != 0
                && exists|r: int|
                0 <= r < input.manifest.ranges.len() && {
                    let range = #[trigger] input.manifest.ranges[r];
                    range.first_node_id <= input.deleted[i].node_id && (
                    input.deleted[i].node_id == range.first_node_id || input.deleted[i].node_id
                        < range.first_node_id + range.count)
                },
        forall|i: int, j: int|
            0 <= i < j < input.deleted.len() ==> (#[trigger] input.deleted[i]).node_id != (
            #[trigger] input.deleted[j]).node_id,
{
    let nodes = input.nodes;
    let forward = input.forward();
    let mapped = as_surrogates(forward);
    let ordinals = input.ordinals();
    let n = input.limits.run_records as nat;
    assert(delta_fault(input) is None);
    lemma_lower_hex_characters(input.digest, 64);
    lemma_first_zero(nodes);
    let zero = first_zero(nodes);
    if zero >= 0 {
        let part = nodes.take(zero / n as int * n);
        lemma_run_repeats_all(part, n);
        let (i, j) = choose|i: int, j: int|
            0 <= i < j < part.len() && (#[trigger] part[i]).key() == (#[trigger] part[j]).key();
        assert(zero / n as int * n <= nodes.len()) by {
            lemma_part(zero, n, nodes.len());
        }
        assert(nodes[i].key() == nodes[j].key());
        assert(repeats(nodes));
    }
    lemma_no_repeats(nodes);
    lemma_no_repeats(mapped);
    lemma_no_repeats(input.deleted);
    assert forall|i: int, j: int| 0 <= i < j < nodes.len() implies (#[trigger] nodes[i]).uuid != (
    #[trigger] nodes[j]).uuid && nodes[i].node_id != nodes[j].node_id by {
        if nodes[i].uuid == nodes[j].uuid {
            assert(nodes[i].key() == nodes[j].key());
        }
        if nodes[i].node_id == nodes[j].node_id {
            assert(nodes.contains(nodes[i]) && nodes.contains(nodes[j]));
            assert(forward.contains(nodes[i]) && forward.contains(nodes[j]));
            let a = choose|a: int| 0 <= a < forward.len() && forward[a] == nodes[i];
            let b = choose|b: int| 0 <= b < forward.len() && forward[b] == nodes[j];
            assert(mapped[a].key() == mapped[b].key());
            assert(mapped[a] == mapped[b]);
        }
    }
    assert forall|i: int| 0 <= i < nodes.len() implies unmapped(
        input.manifest.forward,
        input.pinned,
        (#[trigger] nodes[i]).uuid,
    ) by {
        assert(nodes.contains(nodes[i]));
        assert(forward.contains(nodes[i]));
        let a = choose|a: int| 0 <= a < forward.len() && forward[a] == nodes[i];
        lemma_reuse(input.manifest.forward, input.pinned, forward, a);
    }
    assert forall|i: int| 0 <= i < nodes.len() && input.manifest.ranges.len() > 0 implies ({
        let last = input.manifest.ranges.last();
        &&& (#[trigger] nodes[i]).node_id > last.first_node_id
        &&& nodes[i].node_id >= last.first_node_id + last.count
    }) by {
        assert(nodes.contains(nodes[i]));
        assert(forward.contains(nodes[i]));
        let a = choose|a: int| 0 <= a < forward.len() && forward[a] == nodes[i];
        assert(mapped.contains(mapped[a]));
        assert(ordinals.contains(mapped[a]));
        let b = choose|b: int| 0 <= b < ordinals.len() && ordinals[b] == mapped[a];
        if b > 0 {
            assert(ordinals[0].key() < ordinals[b].key());
        }
    }
    assert forall|i: int| 0 <= i < input.deleted.len() implies (
    #[trigger] input.deleted[i]).node_id != 0 && exists|r: int|
        0 <= r < input.manifest.ranges.len() && {
            let range = #[trigger] input.manifest.ranges[r];
            range.first_node_id <= input.deleted[i].node_id && (input.deleted[i].node_id
                == range.first_node_id || input.deleted[i].node_id < range.first_node_id
                + range.count)
        } by {
        let one = input.deleted[i];
        assert(input.deleted.contains(one));
        if one.node_id == 0 {
            assert(one == NodeTombstone { node_id: 0 });
        }
        assert(input.tombstones().contains(one));
        let k = choose|k: int|
            0 <= k < input.tombstones().len() && input.tombstones()[k] == one;
        assert(ranges_hold(
            input.manifest.ranges,
            input.tombstones()[k].node_id,
        ));
        let r = choose|r: int|
            0 <= r < input.manifest.ranges.len() && range_holds(
                #[trigger] input.manifest.ranges[r],
                one.node_id,
            );
        assert(input.manifest.ranges[r].first_node_id <= one.node_id);
    }
    assert forall|i: int, j: int| 0 <= i < j < input.deleted.len() implies (
    #[trigger] input.deleted[i]).node_id != (#[trigger] input.deleted[j]).node_id by {
        if input.deleted[i].node_id == input.deleted[j].node_id {
            assert(input.deleted[i].key() == input.deleted[j].key());
        }
    }
}

proof fn lemma_part(zero: int, n: nat, len: nat)
    requires
        0 <= zero < len,
    ensures
        zero / n as int * n <= len || n == 0,
{
    if n > 0 {
        vstd::arithmetic::div_mod::lemma_fundamental_div_mod(zero, n as int);
        assert(zero / n as int * n == n as int * (zero / n as int)) by (nonlinear_arith);
    }
}

/// A rebuilt ordinal identity gives each node of the topology its identifier, and
/// no other identifier a UUID, as long as its files read as they were written.
pub proof fn lemma_ordinal_rebuilt_says(
    generation: u64,
    nodes: Seq<NodeRow>,
    limits: UuidIndexBuildLimits,
    bounds: V4OrdinalBounds,
    store: Store,
    node_id: u64,
    uuid: u128,
)
    requires
        staging_outcome(generation, nodes, limits, bounds) is Ok,
        store.keeps_all(
            run_writes(
                id_runs(key_order(as_surrogates(key_order(node_mappings(nodes))))),
                generation,
            ),
        ),
    ensures
        ({
            let staged = staging_outcome(generation, nodes, limits, bounds)->Ok_0;
            &&& staged.generation == generation
            &&& generation != 0
            &&& mapped(
                staged.bundle.manifest.ranges,
                store,
                node_id as int,
                uuid as nat,
            ) <==> names_node(nodes, uuid, node_id)
        }),
{
    let mappings = node_mappings(nodes);
    let forward = key_order(mappings);
    let pairs = as_surrogates(forward);
    let ordinals = key_order(pairs);
    let n = limits.run_records as nat;
    assert(projection_fault(generation, nodes, limits) is None);
    lemma_missing_rows(mapping_rows(nodes), n);
    lemma_no_repeats(mappings);
    lemma_no_repeats(pairs);
    lemma_stream_maps(
        generation,
        bounds,
        forward,
        ordinals,
        store,
        node_id as int,
        uuid as nat,
    );
    let record = ForwardRecord { uuid, node_id };
    let pair = NodeSurrogate { surrogate: node_id, uuid };
    if recorded(ordinals, node_id as int, uuid as nat) {
        let i = choose|i: int|
            0 <= i < ordinals.len() && (#[trigger] ordinals[i]).surrogate == node_id as int
                && ordinals[i].uuid == uuid as nat;
        assert(ordinals[i] == pair);
        assert(ordinals.contains(pair));
        assert(pairs.contains(pair));
        let j = choose|j: int| 0 <= j < pairs.len() && pairs[j] == pair;
        assert(forward[j] == record);
        assert(forward.contains(record));
        assert(mappings.contains(record));
        let k = choose|k: int| 0 <= k < mappings.len() && mappings[k] == record;
        assert(mapping_rows(nodes)[k].value is Some);
        assert(nodes[k].uuid == Some(uuid) && nodes[k].node_id == Some(node_id));
    }
    if names_node(nodes, uuid, node_id) {
        let k = choose|k: int|
            0 <= k < nodes.len() && (#[trigger] nodes[k]).uuid == Some(uuid) && nodes[k].node_id
                == Some(node_id);
        assert(mappings[k] == record);
        assert(mappings.contains(record));
        assert(forward.contains(record));
        let j = choose|j: int| 0 <= j < forward.len() && forward[j] == record;
        assert(pairs[j] == pair);
        assert(pairs.contains(pair));
        assert(ordinals.contains(pair));
        let i = choose|i: int| 0 <= i < ordinals.len() && ordinals[i] == pair;
        assert(ordinals[i].surrogate == node_id as int && ordinals[i].uuid == uuid as nat);
    }
}

proof fn lemma_missing_rows(rows: Seq<ScanRow<ForwardRecord>>, n: nat)
    requires
        scan_fault(
            rows,
            n,
            "invalid entity identity at row "@,
            "duplicate UUID in canonical topology"@,
        ) is None,
    ensures
        forall|i: int| 0 <= i < rows.len() ==> (#[trigger] rows[i]).value is Some,
{
    lemma_scanned(
        rows,
        n,
        "invalid entity identity at row "@,
        "duplicate UUID in canonical topology"@,
    );
}

/// A construction is merged into the ordinal identity of the generation right
/// before its own, and only where its identifiers start above those that were
/// given before.
pub proof fn lemma_ordinal_merge_continues(
    prior: OrdinalManifestView,
    bundle: BundleModel,
    pinned: Seq<ArtifactFileView>,
    authenticated: (u64, u64),
    maximum: u64,
    cancelled: Option<u64>,
)
    requires
        merged_outcome(prior, bundle, pinned, authenticated, maximum, cancelled) is Ok,
    ensures
        bundle.manifest.topology_generation == prior.topology_generation + 1,
        prior.ranges.len() > 0 && bundle.manifest.ranges.len() > 0
            ==> bundle.manifest.ranges[0].first_node_id >= prior.ranges.last().first_node_id
            + prior.ranges.last().count,
        manifest_form(
            merged_outcome(prior, bundle, pinned, authenticated, maximum, cancelled)->Ok_0.manifest,
        ).len() <= maximum,
{
}

/// Whether an output is that of an artifact that is among the new files.
pub open spec fn outputs_artifact(
    output: OutputView,
    artifact: ArtifactView,
    files: Seq<ArtifactFileView>,
) -> bool {
    &&& output.name == artifact.name
    &&& output.bytes == artifact.bytes
    &&& output.sha256 == artifact.sha256
    &&& held(files, artifact.name) is Some
}

proof fn lemma_artifact_outputs(artifacts: Seq<ArtifactView>, files: Seq<ArtifactFileView>)
    ensures
        forall|i: int|
            0 <= i < artifact_outputs(artifacts, files).len() ==> exists|a: int|
                0 <= a < artifacts.len() && outputs_artifact(
                    #[trigger] artifact_outputs(artifacts, files)[i],
                    #[trigger] artifacts[a],
                    files,
                ),
        forall|a: int|
            0 <= a < artifacts.len() && held(files, (#[trigger] artifacts[a]).name) is Some
                ==> exists|i: int|
                0 <= i < artifact_outputs(artifacts, files).len() && outputs_artifact(
                    #[trigger] artifact_outputs(artifacts, files)[i],
                    artifacts[a],
                    files,
                ),
    decreases artifacts.len(),
{
    if artifacts.len() > 0 {
        let front = artifacts.drop_last();
        let last = artifacts.last();
        let before = artifact_outputs(front, files);
        let all = artifact_outputs(artifacts, files);
        lemma_artifact_outputs(front, files);
        assert forall|i: int| 0 <= i < all.len() implies exists|a: int|
            0 <= a < artifacts.len() && outputs_artifact(
                #[trigger] all[i],
                #[trigger] artifacts[a],
                files,
            ) by {
            if i < before.len() {
                assert(before[i] == all[i]);
                let a = choose|a: int|
                    0 <= a < front.len() && outputs_artifact(
                        before[i],
                        #[trigger] front[a],
                        files,
                    );
                assert(outputs_artifact(all[i], artifacts[a], files));
            } else {
                assert(outputs_artifact(all[i], artifacts[artifacts.len() - 1], files));
            }
        }
        assert forall|a: int|
            0 <= a < artifacts.len() && held(files, (#[trigger] artifacts[a]).name) is Some implies
            exists|i: int|
                0 <= i < all.len() && outputs_artifact(
                    #[trigger] all[i],
                    artifacts[a],
                    files,
                ) by {
            if a < front.len() {
                assert(front[a] == artifacts[a]);
                let i = choose|i: int|
                    0 <= i < before.len() && outputs_artifact(
                        #[trigger] before[i],
                        front[a],
                        files,
                    );
                assert(outputs_artifact(all[i], artifacts[a], files));
            } else {
                assert(outputs_artifact(all[all.len() - 1], artifacts[a], files));
            }
        }
    }
}

/// A publication installs the new artifacts that its manifest names, each with its
/// length and digest, and after them the receipt, the manifest and, last of all,
/// the empty lock.
pub proof fn lemma_publication_order(
    manifest: OrdinalManifestView,
    files: Seq<ArtifactFileView>,
    receipt_name: Seq<char>,
    receipt: Seq<u8>,
    manifest_name: Seq<char>,
    body: Seq<u8>,
    reads: (u64, u64),
)
    requires
        receipt.len() <= u64::MAX,
        body.len() <= u64::MAX,
        publication_outcome(
            manifest,
            files,
            receipt_name,
            receipt,
            manifest_name,
            body,
            reads,
        ) is Ok,
    ensures
        ({
            let (outputs, metrics) = publication_outcome(
                manifest,
                files,
                receipt_name,
                receipt,
                manifest_name,
                body,
                reads,
            )->Ok_0;
            let artifacts = manifest_artifacts(manifest);
            let n = outputs.len() - 3;
            &&& n >= 0
            &&& outputs[n].name == receipt_name
            &&& outputs[n].sha256 == sha256_hex(receipt)
            &&& outputs[n].bytes == receipt.len()
            &&& outputs[n + 1].name == manifest_name
            &&& outputs[n + 1].sha256 == sha256_hex(body)
            &&& outputs[n + 1].bytes == body.len()
            &&& outputs[n + 2].name == "ordinal-v4.lock"@
            &&& outputs[n + 2].bytes == 0
            &&& forall|i: int|
                0 <= i < n ==> exists|a: int|
                    0 <= a < artifacts.len() && outputs_artifact(
                        #[trigger] outputs[i],
                        #[trigger] artifacts[a],
                        files,
                    )
            &&& forall|a: int|
                0 <= a < artifacts.len() && held(files, (#[trigger] artifacts[a]).name) is Some
                    ==> exists|i: int|
                    0 <= i < n && outputs_artifact(#[trigger] outputs[i], artifacts[a], files)
        }),
{
    let artifacts = manifest_artifacts(manifest);
    lemma_artifact_outputs(artifacts, files);
    let first = artifact_outputs(artifacts, files);
    let (outputs, metrics) = publication_outcome(
        manifest,
        files,
        receipt_name,
        receipt,
        manifest_name,
        body,
        reads,
    )->Ok_0;
    let n = outputs.len() - 3;
    assert(n == first.len());
    assert forall|i: int| 0 <= i < n implies exists|a: int|
        0 <= a < artifacts.len() && outputs_artifact(
            #[trigger] outputs[i],
            #[trigger] artifacts[a],
            files,
        ) by {
        assert(outputs[i] == first[i]);
        let a = choose|a: int|
            0 <= a < artifacts.len() && outputs_artifact(first[i], #[trigger] artifacts[a], files);
        assert(outputs_artifact(outputs[i], artifacts[a], files));
    }
    assert forall|a: int|
        0 <= a < artifacts.len() && held(files, (#[trigger] artifacts[a]).name) is Some implies
        exists|i: int|
            0 <= i < n && outputs_artifact(#[trigger] outputs[i], artifacts[a], files) by {
        let i = choose|i: int|
            0 <= i < first.len() && outputs_artifact(#[trigger] first[i], artifacts[a], files);
        assert(outputs[i] == first[i]);
    }
}

} // verus!
