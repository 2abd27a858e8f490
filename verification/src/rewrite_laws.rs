//! What a prepared rewrite does to the two indexes that it updates.
use vstd::prelude::*;

use crate::authority_laws::lemma_probe_answered;
use crate::error::GfError;
use crate::history::{extendable, lemma_delta_live, lemma_delta_read_back, mentions};
use crate::identity_codec::Identity;
use crate::maintenance::UuidIndexOrphanGcWork;
use crate::membership::IndexModel;
use crate::ordinal_history::{
    all_present, all_sound, assigned, buried, consistent, delta_writes, lemma_published_says, live,
    mapped, next_store, prior_store, published_store, Store,
};
use crate::ordinal_format::OrdinalManifestView;
use crate::ordinal_delta::delta_outcome;
use crate::probe_laws::{lemma_lookup_refused, unpaired};
use crate::probing::{
    all_authentic, is_live, lemma_lookup_answers, lemma_probe_answers, live_surrogate, looked_up,
    membership, probed, speaks_of, UuidIndexKind, UuidProbeMetrics,
};
use crate::records::{ForwardRecord, NodeTombstone};
use crate::rewrite::{
    found_edges, found_nodes, ordinal_fails, ordinal_input, OrdinalInputs, preparation_fails,
    PreparedRewrite, prepares, preparing, resolved_delta, resolves, RewriteContext,
    TopologyDeltaModel, unresolvable,
};
use crate::runs::RunModel;
use crate::topology_delta::{edge_identities, is_delta_digest, node_identities, planning};

verus! {

proof fn lemma_found_nodes(uuids: Seq<u128>, found: Seq<Option<u64>>)
    requires
        uuids.len() == found.len(),
    ensures
        forall|record: ForwardRecord| #[trigger]
            found_nodes(uuids, found).contains(record) <==> exists|i: int|
                0 <= i < uuids.len() && #[trigger] uuids[i] == record.uuid && found[i] == Some(
                    record.node_id,
                ),
    decreases uuids.len(),
{
    if uuids.len() > 0 {
        let before = found_nodes(uuids.drop_last(), found.drop_last());
        lemma_found_nodes(uuids.drop_last(), found.drop_last());
        assert forall|record: ForwardRecord| #[trigger]
            found_nodes(uuids, found).contains(record) <==> exists|i: int|
                0 <= i < uuids.len() && #[trigger] uuids[i] == record.uuid && found[i] == Some(
                    record.node_id,
                ) by {
            let last = uuids.len() - 1;
            if let Some(node_id) = found.last() {
                crate::keyed::lemma_push_contains(
                    before,
                    ForwardRecord { uuid: uuids.last(), node_id },
                );
            }
            if found_nodes(uuids, found).contains(record) {
                if before.contains(record) {
                    let i = choose|i: int|
                        0 <= i < last && #[trigger] uuids.drop_last()[i] == record.uuid
                            && found.drop_last()[i] == Some(record.node_id);
                    assert(uuids[i] == record.uuid && found[i] == Some(record.node_id));
                } else {
                    assert(uuids[last] == record.uuid && found[last] == Some(record.node_id));
                }
            }
            if exists|i: int|
                0 <= i < uuids.len() && #[trigger] uuids[i] == record.uuid && found[i] == Some(
                    record.node_id,
                ) {
                let i = choose|i: int|
                    0 <= i < uuids.len() && #[trigger] uuids[i] == record.uuid && found[i] == Some(
                        record.node_id,
                    );
                if i < last {
                    assert(uuids.drop_last()[i] == record.uuid && found.drop_last()[i] == Some(
                        record.node_id,
                    ));
                    assert(before.contains(record));
                } else {
                    assert(record == ForwardRecord { uuid: uuids.last(), node_id: record.node_id });
                }
            }
        }
    }
}

proof fn lemma_found_edges(uuids: Seq<u128>, found: Seq<bool>)
    requires
        uuids.len() == found.len(),
    ensures
        forall|uuid: u128| #[trigger]
            found_edges(uuids, found).contains(uuid) <==> exists|i: int|
                0 <= i < uuids.len() && #[trigger] uuids[i] == uuid && found[i],
    decreases uuids.len(),
{
    if uuids.len() > 0 {
        let before = found_edges(uuids.drop_last(), found.drop_last());
        let last = uuids.len() - 1;
        lemma_found_edges(uuids.drop_last(), found.drop_last());
        crate::keyed::lemma_push_contains(before, uuids.last());
        assert forall|uuid: u128| #[trigger]
            found_edges(uuids, found).contains(uuid) <==> exists|i: int|
                0 <= i < uuids.len() && #[trigger] uuids[i] == uuid && found[i] by {
            if found_edges(uuids, found).contains(uuid) {
                if before.contains(uuid) {
                    let i = choose|i: int|
                        0 <= i < last && #[trigger] uuids.drop_last()[i] == uuid
                            && found.drop_last()[i];
                    assert(uuids[i] == uuid && found[i]);
                } else {
                    assert(uuids[last] == uuid && found[last]);
                }
            }
            if exists|i: int| 0 <= i < uuids.len() && #[trigger] uuids[i] == uuid && found[i] {
                let i = choose|i: int|
                    0 <= i < uuids.len() && #[trigger] uuids[i] == uuid && found[i];
                if i < last {
                    assert(uuids.drop_last()[i] == uuid && found.drop_last()[i]);
                    assert(before.contains(uuid));
                }
            }
        }
    }
}

/// Resolving deletions keeps exactly those that the index holds live, each node
/// with the surrogate that it has there.
pub proof fn lemma_deletions_resolved(
    nodes: Seq<ForwardRecord>,
    edges: Seq<u128>,
    runs: Seq<RunModel>,
    deleted_nodes: Seq<u128>,
    deleted_edges: Seq<u128>,
)
    requires
        all_authentic(runs),
        resolves(nodes, edges, runs, deleted_nodes, deleted_edges),
    ensures
        forall|record: ForwardRecord| #[trigger]
            nodes.contains(record) <==> deleted_nodes.contains(record.uuid) && live_surrogate(
                runs,
                record.uuid,
            ) == Some(record.node_id),
        forall|uuid: u128| #[trigger]
            edges.contains(uuid) <==> deleted_edges.contains(uuid) && is_live(
                runs,
                UuidIndexKind::Edge,
                uuid,
            ),
{
    let (surrogates, node_work, present, edge_work) = choose|
        surrogates: Seq<Option<u64>>,
        node_work: UuidProbeMetrics,
        present: Seq<bool>,
        edge_work: UuidProbeMetrics,
    |
        {
            &&& #[trigger] looked_up(surrogates, node_work, runs, deleted_nodes)
            &&& #[trigger] probed(present, edge_work, runs, UuidIndexKind::Edge, deleted_edges)
            &&& nodes == found_nodes(deleted_nodes, surrogates)
            &&& edges == found_edges(deleted_edges, present)
        };
    lemma_lookup_answers(surrogates, node_work, runs, deleted_nodes);
    lemma_probe_answers(present, edge_work, runs, UuidIndexKind::Edge, deleted_edges);
    lemma_found_nodes(deleted_nodes, surrogates);
    lemma_found_edges(deleted_edges, present);
    assert forall|record: ForwardRecord| #[trigger]
        nodes.contains(record) <==> deleted_nodes.contains(record.uuid) && live_surrogate(
            runs,
            record.uuid,
        ) == Some(record.node_id) by {
        if nodes.contains(record) {
            let i = choose|i: int|
                0 <= i < deleted_nodes.len() && #[trigger] deleted_nodes[i] == record.uuid
                    && surrogates[i] == Some(record.node_id);
            assert(surrogates[i] == live_surrogate(runs, deleted_nodes[i]));
        }
        if deleted_nodes.contains(record.uuid) && live_surrogate(runs, record.uuid) == Some(
            record.node_id,
        ) {
            let i = choose|i: int| 0 <= i < deleted_nodes.len() && deleted_nodes[i] == record.uuid;
            assert(surrogates[i] == live_surrogate(runs, deleted_nodes[i]));
        }
    }
    assert forall|uuid: u128| #[trigger]
        edges.contains(uuid) <==> deleted_edges.contains(uuid) && is_live(
            runs,
            UuidIndexKind::Edge,
            uuid,
        ) by {
        if edges.contains(uuid) {
            let i = choose|i: int|
                0 <= i < deleted_edges.len() && #[trigger] deleted_edges[i] == uuid && present[i];
            assert(present[i] == is_live(runs, UuidIndexKind::Edge, deleted_edges[i]));
        }
        if deleted_edges.contains(uuid) && is_live(runs, UuidIndexKind::Edge, uuid) {
            let i = choose|i: int| 0 <= i < deleted_edges.len() && deleted_edges[i] == uuid;
            assert(present[i] == is_live(runs, UuidIndexKind::Edge, deleted_edges[i]));
        }
    }
}

/// Whether a rewrite with an ordinal identity starts from artifacts that can be
/// read, and leaves no two files of one name that differ.
pub open spec fn readable(
    prepared: PreparedRewrite,
    context: RewriteContext,
    delta: TopologyDeltaModel,
    nodes: Seq<ForwardRecord>,
    edges: Seq<u128>,
    inputs: OrdinalInputs,
) -> bool {
    let input = ordinal_input(
        context,
        inputs,
        resolved_delta(delta, nodes, edges),
        prepared.topology_delta_sha256@,
    );
    &&& all_sound(inputs.manifest@.ranges, prior_store(input))
    &&& all_present(inputs.manifest@.tombstones, prior_store(input))
    &&& next_store(input).agrees()
    &&& next_store(input).keeps_all(delta_writes(input))
    &&& prepared.ordinal matches Some(planned) && consistent(
        crate::ordinal_format::views(planned.outputs@),
    )
}

/// The artifacts that a rewrite starts from.
pub open spec fn artifacts_before(inputs: OrdinalInputs) -> Store {
    Store { files: Seq::empty(), pinned: crate::ordinal_format::views(inputs.pinned@) }
}

/// The artifacts that a rewrite leaves.
pub open spec fn artifacts_after(prepared: PreparedRewrite, inputs: OrdinalInputs) -> Store {
    Store {
        files: crate::ordinal_format::views(prepared.ordinal->0.outputs@),
        pinned: crate::ordinal_format::views(inputs.pinned@),
    }
}

/// A rewrite that carries an ordinal identity buries in it the surrogate of every
/// node that it deletes and the membership index held live, and buries nothing
/// else that was not buried before. It maps the new nodes, and every node that
/// was mapped stays so.
pub proof fn lemma_rewrite_buries(
    prepared: PreparedRewrite,
    context: RewriteContext,
    index: IndexModel,
    admitted: (u64, u64),
    delta: TopologyDeltaModel,
    nodes: Seq<ForwardRecord>,
    edges: Seq<u128>,
    inputs: OrdinalInputs,
    orphan_gc: UuidIndexOrphanGcWork,
)
    requires
        all_authentic(index.runs),
        resolves(nodes, edges, index.runs, delta.deleted_nodes, delta.deleted_edges),
        prepares(
            prepared,
            context,
            index,
            admitted,
            resolved_delta(delta, nodes, edges),
            Some(inputs),
            orphan_gc,
        ),
        readable(prepared, context, delta, nodes, edges, inputs),
    ensures
        prepared.ordinal is Some,
        forall|node_id: u64| #[trigger]
            buried(
                prepared.ordinal->0.manifest@.tombstones,
                artifacts_after(prepared, inputs),
                node_id,
            ) <==> buried(inputs.manifest@.tombstones, artifacts_before(inputs), node_id)
                || exists|uuid: u128|
                delta.deleted_nodes.contains(uuid) && #[trigger] live_surrogate(index.runs, uuid)
                    == Some(node_id),
        forall|node_id: u64, uuid: u128| #[trigger]
            mapped(
                prepared.ordinal->0.manifest@.ranges,
                artifacts_after(prepared, inputs),
                node_id as int,
                uuid as nat,
            ) <==> mapped(
                inputs.manifest@.ranges,
                artifacts_before(inputs),
                node_id as int,
                uuid as nat,
            ) || delta.nodes.contains(ForwardRecord { uuid, node_id }),
{
    let resolved = resolved_delta(delta, nodes, edges);
    let input = ordinal_input(context, inputs, resolved, prepared.topology_delta_sha256@);
    let planned = prepared.ordinal->0;
    lemma_published_says(planned, input);
    lemma_deletions_resolved(
        nodes,
        edges,
        index.runs,
        delta.deleted_nodes,
        delta.deleted_edges,
    );
    assert(artifacts_after(prepared, inputs) == published_store(planned, input));
    assert(artifacts_before(inputs) == prior_store(input));
    assert forall|node_id: u64| #[trigger]
        buried(
            planned.manifest@.tombstones,
            artifacts_after(prepared, inputs),
            node_id,
        ) <==> buried(inputs.manifest@.tombstones, artifacts_before(inputs), node_id)
            || exists|uuid: u128|
            delta.deleted_nodes.contains(uuid) && #[trigger] live_surrogate(index.runs, uuid)
                == Some(node_id) by {
        let grave = NodeTombstone { node_id };
        assert(buried(planned.manifest@.tombstones, published_store(planned, input), node_id)
            <==> buried(input.manifest.tombstones, prior_store(input), node_id)
            || input.deleted.contains(grave));
        if input.deleted.contains(grave) {
            let i = choose|i: int| 0 <= i < input.deleted.len() && input.deleted[i] == grave;
            assert(nodes[i].node_id == node_id);
            assert(nodes.contains(nodes[i]));
            assert(live_surrogate(index.runs, nodes[i].uuid) == Some(node_id));
        }
        if exists|uuid: u128|
            delta.deleted_nodes.contains(uuid) && #[trigger] live_surrogate(index.runs, uuid)
                == Some(node_id) {
            let uuid = choose|uuid: u128|
                delta.deleted_nodes.contains(uuid) && #[trigger] live_surrogate(index.runs, uuid)
                    == Some(node_id);
            let record = ForwardRecord { uuid, node_id };
            assert(nodes.contains(record));
            let i = choose|i: int| 0 <= i < nodes.len() && nodes[i] == record;
            assert(input.deleted[i] == grave);
        }
    }
    assert forall|node_id: u64, uuid: u128| #[trigger]
        mapped(
            planned.manifest@.ranges,
            artifacts_after(prepared, inputs),
            node_id as int,
            uuid as nat,
        ) <==> mapped(
            inputs.manifest@.ranges,
            artifacts_before(inputs),
            node_id as int,
            uuid as nat,
        ) || delta.nodes.contains(ForwardRecord { uuid, node_id }) by {
        assert(mapped(
            planned.manifest@.ranges,
            published_store(planned, input),
            node_id as int,
            uuid as nat,
        ) <==> mapped(input.manifest.ranges, prior_store(input), node_id as int, uuid as nat)
            || assigned(input.nodes, node_id as int, uuid as nat));
        let record = ForwardRecord { uuid, node_id };
        if assigned(input.nodes, node_id as int, uuid as nat) {
            let i = choose|i: int|
                0 <= i < input.nodes.len() && (#[trigger] input.nodes[i]).node_id == node_id as int
                    && input.nodes[i].uuid == uuid as nat;
            assert(delta.nodes[i] == record);
        }
        if delta.nodes.contains(record) {
            let i = choose|i: int| 0 <= i < delta.nodes.len() && delta.nodes[i] == record;
            assert(input.nodes[i].node_id == node_id as int && input.nodes[i].uuid == uuid as nat);
        }
    }
}

/// Whether the membership index and the ordinal identity have the same live
/// nodes, each identifier being that of one of them.
pub open spec fn in_step(runs: Seq<RunModel>, manifest: OrdinalManifestView, store: Store) -> bool {
    &&& forall|uuid: u128, node_id: u64|
        #![trigger live(manifest, store, node_id, uuid)]
        live_surrogate(runs, uuid) == Some(node_id) <==> live(manifest, store, node_id, uuid)
    &&& forall|uuid: u128, other: u128|
        #![trigger live_surrogate(runs, uuid), live_surrogate(runs, other)]
        live_surrogate(runs, uuid) is Some && live_surrogate(runs, uuid) == live_surrogate(
            runs,
            other,
        ) ==> uuid == other
}

/// Whether new nodes are new to both indexes: their UUIDs are not live, and
/// their identifiers neither belong to a live node nor are buried.
pub open spec fn fresh(
    nodes: Seq<ForwardRecord>,
    runs: Seq<RunModel>,
    manifest: OrdinalManifestView,
    store: Store,
) -> bool {
    &&& forall|i: int|
        0 <= i < nodes.len() ==> live_surrogate(runs, (#[trigger] nodes[i]).uuid) is None
            && !buried(manifest.tombstones, store, nodes[i].node_id)
    &&& forall|i: int, uuid: u128|
        #![trigger nodes[i], live_surrogate(runs, uuid)]
        0 <= i < nodes.len() ==> live_surrogate(runs, uuid) != Some(nodes[i].node_id)
    &&& forall|i: int, j: int|
        0 <= i < j < nodes.len() ==> (#[trigger] nodes[i]).uuid != (#[trigger] nodes[j]).uuid
            && nodes[i].node_id != nodes[j].node_id
}

/// What the membership index says of a node after a rewrite.
proof fn lemma_rewrite_membership(
    prepared: PreparedRewrite,
    context: RewriteContext,
    index: IndexModel,
    admitted: (u64, u64),
    delta: TopologyDeltaModel,
    nodes: Seq<ForwardRecord>,
    edges: Seq<u128>,
    ordinal: Option<OrdinalInputs>,
    orphan_gc: UuidIndexOrphanGcWork,
    uuid: u128,
)
    requires
        extendable(Some(index)),
        context.prior < u64::MAX,
        resolves(nodes, edges, index.runs, delta.deleted_nodes, delta.deleted_edges),
        prepares(
            prepared,
            context,
            index,
            admitted,
            resolved_delta(delta, nodes, edges),
            ordinal,
            orphan_gc,
        ),
    ensures
        forall|node_id: u64|
            #[trigger] delta.nodes.contains(ForwardRecord { uuid, node_id }) ==> live_surrogate(
                prepared.membership.index@.runs,
                uuid,
            ) == Some(node_id),
        (forall|node_id: u64|
            !#[trigger] delta.nodes.contains(ForwardRecord { uuid, node_id }))
            && delta.deleted_nodes.contains(uuid) ==> live_surrogate(
            prepared.membership.index@.runs,
            uuid,
        ) is None,
        (forall|node_id: u64|
            !#[trigger] delta.nodes.contains(ForwardRecord { uuid, node_id }))
            && !delta.deleted_nodes.contains(uuid) ==> live_surrogate(
            prepared.membership.index@.runs,
            uuid,
        ) == live_surrogate(index.runs, uuid),
{
    let resolved = resolved_delta(delta, nodes, edges);
    let planned = prepared.membership;
    let runs = planned.index@.runs;
    lemma_deletions_resolved(
        nodes,
        edges,
        index.runs,
        delta.deleted_nodes,
        delta.deleted_edges,
    );
    assert forall|node_id: u64| #[trigger]
        delta.nodes.contains(ForwardRecord { uuid, node_id }) implies live_surrogate(runs, uuid)
        == Some(node_id) by {
        let i = choose|i: int|
            0 <= i < delta.nodes.len() && delta.nodes[i] == ForwardRecord { uuid, node_id };
        lemma_delta_live(
            planned,
            context.prior,
            context.next,
            Some(index),
            admitted,
            resolved,
            i,
        );
    }
    if forall|node_id: u64| !#[trigger] delta.nodes.contains(ForwardRecord { uuid, node_id }) {
        lemma_delta_read_back(
            planned,
            context.prior,
            context.next,
            Some(index),
            admitted,
            resolved,
            UuidIndexKind::Node,
            uuid,
        );
        if delta.deleted_nodes.contains(uuid) && live_surrogate(index.runs, uuid) is Some {
            let node_id = live_surrogate(index.runs, uuid)->0;
            let record = ForwardRecord { uuid, node_id };
            assert(nodes.contains(record));
            let i = choose|i: int| 0 <= i < nodes.len() && nodes[i] == record;
            lemma_delta_live(
                planned,
                context.prior,
                context.next,
                Some(index),
                admitted,
                resolved,
                i,
            );
            assert(!is_live(runs, UuidIndexKind::Node, resolved.deleted_nodes[i].uuid));
        } else if mentions(resolved, UuidIndexKind::Node, uuid) {
            let record = choose|record: Identity| #[trigger]
                resolved.identities().contains(record) && speaks_of(
                    record,
                    UuidIndexKind::Node,
                    uuid,
                );
            let all = resolved.identities();
            let k = choose|k: int| 0 <= k < all.len() && all[k] == record;
            let a = resolved.nodes.len() as int;
            let b = a + resolved.edges.len();
            let c = b + resolved.deleted_nodes.len();
            if k < a {
                assert(all[k] == node_identities(resolved.nodes, 0)[k]);
                let old = delta.nodes[k];
                assert(delta.nodes.contains(old));
                assert(old == ForwardRecord { uuid, node_id: old.node_id });
            } else if k < b {
                assert(all[k] == edge_identities(resolved.edges, 1)[k - a]);
            } else if k < c {
                assert(all[k] == node_identities(resolved.deleted_nodes, 2)[k - b]);
                assert(nodes.contains(nodes[k - b]));
            } else {
                assert(all[k] == edge_identities(resolved.deleted_edges, 3)[k - c]);
            }
        }
    }
}

/// The two indexes of a rewrite stay in step: where the membership index and the
/// ordinal identity have the same live nodes before a rewrite whose new nodes are
/// new to both, they have the same live nodes after it.
pub proof fn lemma_rewrite_in_step(
    prepared: PreparedRewrite,
    context: RewriteContext,
    index: IndexModel,
    admitted: (u64, u64),
    delta: TopologyDeltaModel,
    nodes: Seq<ForwardRecord>,
    edges: Seq<u128>,
    inputs: OrdinalInputs,
    orphan_gc: UuidIndexOrphanGcWork,
)
    requires
        extendable(Some(index)),
        context.prior < u64::MAX,
        resolves(nodes, edges, index.runs, delta.deleted_nodes, delta.deleted_edges),
        prepares(
            prepared,
            context,
            index,
            admitted,
            resolved_delta(delta, nodes, edges),
            Some(inputs),
            orphan_gc,
        ),
        readable(prepared, context, delta, nodes, edges, inputs),
        in_step(index.runs, inputs.manifest@, artifacts_before(inputs)),
        fresh(delta.nodes, index.runs, inputs.manifest@, artifacts_before(inputs)),
    ensures
        in_step(
            prepared.membership.index@.runs,
            prepared.ordinal->0.manifest@,
            artifacts_after(prepared, inputs),
        ),
{
    lemma_rewrite_buries(
        prepared,
        context,
        index,
        admitted,
        delta,
        nodes,
        edges,
        inputs,
        orphan_gc,
    );
    let runs = prepared.membership.index@.runs;
    let manifest = prepared.ordinal->0.manifest@;
    let store = artifacts_after(prepared, inputs);
    let before = inputs.manifest@;
    let old = artifacts_before(inputs);
    let ordinal = Some(inputs);
    assert forall|uuid: u128, node_id: u64|
        #![trigger live(manifest, store, node_id, uuid)]
        live_surrogate(runs, uuid) == Some(node_id) <==> live(manifest, store, node_id, uuid) by {
        lemma_rewrite_membership(
            prepared,
            context,
            index,
            admitted,
            delta,
            nodes,
            edges,
            ordinal,
            orphan_gc,
            uuid,
        );
        let record = ForwardRecord { uuid, node_id };
        assert(mapped(manifest.ranges, store, node_id as int, uuid as nat) <==> mapped(
            before.ranges,
            old,
            node_id as int,
            uuid as nat,
        ) || delta.nodes.contains(record));
        assert(live(before, old, node_id, uuid) <==> live_surrogate(index.runs, uuid) == Some(
            node_id,
        ));
        let gone = exists|other: u128|
            delta.deleted_nodes.contains(other) && #[trigger] live_surrogate(index.runs, other)
                == Some(node_id);
        assert(buried(manifest.tombstones, store, node_id) <==> buried(
            before.tombstones,
            old,
            node_id,
        ) || gone);
        if delta.nodes.contains(record) {
            let i = choose|i: int| 0 <= i < delta.nodes.len() && delta.nodes[i] == record;
            assert(!buried(before.tombstones, old, delta.nodes[i].node_id));
            if gone {
                let other = choose|other: u128|
                    delta.deleted_nodes.contains(other) && #[trigger] live_surrogate(
                        index.runs,
                        other,
                    ) == Some(node_id);
                assert(live_surrogate(index.runs, other) != Some(delta.nodes[i].node_id));
            }
        } else if exists|given: u64|
            #[trigger] delta.nodes.contains(ForwardRecord { uuid, node_id: given }) {
            let given = choose|given: u64| #[trigger]
                delta.nodes.contains(ForwardRecord { uuid, node_id: given });
            let i = choose|i: int|
                0 <= i < delta.nodes.len() && delta.nodes[i] == ForwardRecord {
                    uuid,
                    node_id: given,
                };
            assert(live_surrogate(index.runs, delta.nodes[i].uuid) is None);
            assert(live_surrogate(runs, uuid) == Some(given));
            assert(given != node_id);
            assert(!live(before, old, node_id, uuid));
            if live(manifest, store, node_id, uuid) {
                assert(mapped(before.ranges, old, node_id as int, uuid as nat));
                assert(!buried(before.tombstones, old, node_id));
            }
        } else {
            if gone {
                let other = choose|other: u128|
                    delta.deleted_nodes.contains(other) && #[trigger] live_surrogate(
                        index.runs,
                        other,
                    ) == Some(node_id);
                if live_surrogate(index.runs, uuid) == Some(node_id) {
                    assert(uuid == other);
                }
            }
        }
    }
    assert forall|uuid: u128, other: u128|
        #![trigger live_surrogate(runs, uuid), live_surrogate(runs, other)]
        live_surrogate(runs, uuid) is Some && live_surrogate(runs, uuid) == live_surrogate(
            runs,
            other,
        ) implies uuid == other by {
        let node_id = live_surrogate(runs, uuid)->0;
        assert(live(manifest, store, node_id, uuid));
        assert(live(manifest, store, node_id, other));
        assert(mapped(manifest.ranges, store, node_id as int, uuid as nat));
        assert(mapped(manifest.ranges, store, node_id as int, other as nat));
        assert(!buried(manifest.tombstones, store, node_id));
        lemma_one_holder(delta.nodes, index.runs, before, old, uuid, other, node_id);
    }
}

/// An identifier that is live twice, in the old artifacts or among new nodes, is
/// that of one UUID.
proof fn lemma_one_holder(
    nodes: Seq<ForwardRecord>,
    runs: Seq<RunModel>,
    manifest: OrdinalManifestView,
    store: Store,
    uuid: u128,
    other: u128,
    node_id: u64,
)
    requires
        in_step(runs, manifest, store),
        fresh(nodes, runs, manifest, store),
        !buried(manifest.tombstones, store, node_id),
        mapped(manifest.ranges, store, node_id as int, uuid as nat) || nodes.contains(
            (ForwardRecord { uuid, node_id }),
        ),
        mapped(manifest.ranges, store, node_id as int, other as nat) || nodes.contains(
            (ForwardRecord { uuid: other, node_id }),
        ),
    ensures
        uuid == other,
{
    assert(live(manifest, store, node_id, uuid) <==> live_surrogate(runs, uuid) == Some(node_id));
    assert(live(manifest, store, node_id, other) <==> live_surrogate(runs, other) == Some(node_id));
    if nodes.contains((ForwardRecord { uuid, node_id })) {
        let i = choose|i: int| 0 <= i < nodes.len() && nodes[i] == ForwardRecord { uuid, node_id };
        assert(live_surrogate(runs, other) != Some(nodes[i].node_id));
        let j = choose|j: int|
            0 <= j < nodes.len() && nodes[j] == ForwardRecord { uuid: other, node_id };
        if i < j {
            assert(nodes[i].node_id != nodes[j].node_id);
        } else if j < i {
            assert(nodes[j].node_id != nodes[i].node_id);
        }
    } else if nodes.contains((ForwardRecord { uuid: other, node_id })) {
        let j = choose|j: int|
            0 <= j < nodes.len() && nodes[j] == ForwardRecord { uuid: other, node_id };
        assert(live_surrogate(runs, uuid) != Some(nodes[j].node_id));
    }
}

/// Whether the artifacts of a rewrite can be read, whatever its deletions resolve to.
pub open spec fn always_readable(
    prepared: PreparedRewrite,
    context: RewriteContext,
    index: IndexModel,
    delta: TopologyDeltaModel,
    inputs: OrdinalInputs,
) -> bool {
    forall|nodes: Seq<ForwardRecord>, edges: Seq<u128>| #[trigger]
        resolves(nodes, edges, index.runs, delta.deleted_nodes, delta.deleted_edges) ==> readable(
            prepared,
            context,
            delta,
            nodes,
            edges,
            inputs,
        )
}

/// When a rewrite with an ordinal identity is prepared, the surrogate of every deleted
/// UUID that is live in the index is buried in the prepared inventory, and nothing
/// else is newly buried; each new node has its UUID and every other node the one it
/// had.
pub proof fn lemma_prepared_buries(
    prepared: PreparedRewrite,
    context: RewriteContext,
    index: IndexModel,
    admitted: (u64, u64),
    delta: TopologyDeltaModel,
    inputs: OrdinalInputs,
    orphan_gc: UuidIndexOrphanGcWork,
)
    requires
        all_authentic(index.runs),
        preparing(Ok(prepared), context, index, admitted, delta, Some(inputs), orphan_gc),
        always_readable(prepared, context, index, delta, inputs),
    ensures
        prepared.ordinal is Some,
        forall|node_id: u64| #[trigger]
            buried(
                prepared.ordinal->0.manifest@.tombstones,
                artifacts_after(prepared, inputs),
                node_id,
            ) <==> buried(inputs.manifest@.tombstones, artifacts_before(inputs), node_id)
                || exists|uuid: u128|
                delta.deleted_nodes.contains(uuid) && #[trigger] live_surrogate(index.runs, uuid)
                    == Some(node_id),
        forall|node_id: u64, uuid: u128| #[trigger]
            mapped(
                prepared.ordinal->0.manifest@.ranges,
                artifacts_after(prepared, inputs),
                node_id as int,
                uuid as nat,
            ) <==> mapped(
                inputs.manifest@.ranges,
                artifacts_before(inputs),
                node_id as int,
                uuid as nat,
            ) || delta.nodes.contains(ForwardRecord { uuid, node_id }),
{
    let (nodes, edges) = choose|nodes: Seq<ForwardRecord>, edges: Seq<u128>|
        {
            &&& #[trigger] resolves(
                nodes,
                edges,
                index.runs,
                delta.deleted_nodes,
                delta.deleted_edges,
            )
            &&& prepares(
                prepared,
                context,
                index,
                admitted,
                resolved_delta(delta, nodes, edges),
                Some(inputs),
                orphan_gc,
            )
        };
    lemma_rewrite_buries(
        prepared,
        context,
        index,
        admitted,
        delta,
        nodes,
        edges,
        inputs,
        orphan_gc,
    );
}

/// A prepared rewrite keeps the ordinal identity and the membership index in step: a
/// node is live in one exactly where it is in the other, under the same identifier.
pub proof fn lemma_prepared_in_step(
    prepared: PreparedRewrite,
    context: RewriteContext,
    index: IndexModel,
    admitted: (u64, u64),
    delta: TopologyDeltaModel,
    inputs: OrdinalInputs,
    orphan_gc: UuidIndexOrphanGcWork,
)
    requires
        extendable(Some(index)),
        context.prior < u64::MAX,
        preparing(Ok(prepared), context, index, admitted, delta, Some(inputs), orphan_gc),
        always_readable(prepared, context, index, delta, inputs),
        in_step(index.runs, inputs.manifest@, artifacts_before(inputs)),
        fresh(delta.nodes, index.runs, inputs.manifest@, artifacts_before(inputs)),
    ensures
        in_step(
            prepared.membership.index@.runs,
            prepared.ordinal->0.manifest@,
            artifacts_after(prepared, inputs),
        ),
{
    let (nodes, edges) = choose|nodes: Seq<ForwardRecord>, edges: Seq<u128>|
        {
            &&& #[trigger] resolves(
                nodes,
                edges,
                index.runs,
                delta.deleted_nodes,
                delta.deleted_edges,
            )
            &&& prepares(
                prepared,
                context,
                index,
                admitted,
                resolved_delta(delta, nodes, edges),
                Some(inputs),
                orphan_gc,
            )
        };
    lemma_rewrite_in_step(
        prepared,
        context,
        index,
        admitted,
        delta,
        nodes,
        edges,
        inputs,
        orphan_gc,
    );
}

/// A rewrite of an authentic index is refused only where the next generation does not
/// follow the prior one, a run does not pair a deleted node that it says is live with
/// its surrogate, or the resolved delta fits one of the two indexes not.
pub proof fn lemma_preparation_refused(
    error: GfError,
    context: RewriteContext,
    index: IndexModel,
    admitted: (u64, u64),
    delta: TopologyDeltaModel,
    ordinal: Option<OrdinalInputs>,
    orphan_gc: UuidIndexOrphanGcWork,
)
    requires
        all_authentic(index.runs),
        context.prior < u64::MAX,
        preparing(Err(error), context, index, admitted, delta, ordinal, orphan_gc),
    ensures
        ({
            ||| context.next != context.prior + 1
            ||| exists|r: int, record: Identity|
                0 <= r < index.runs.len() && #[trigger] unpaired(
                    index.runs[r],
                    record,
                    delta.deleted_nodes,
                ) && record.kind == 0
            ||| exists|nodes: Seq<ForwardRecord>, edges: Seq<u128>|
                {
                    &&& #[trigger] resolves(
                        nodes,
                        edges,
                        index.runs,
                        delta.deleted_nodes,
                        delta.deleted_edges,
                    )
                    &&& {
                        ||| planning(
                            Err(error),
                            context.prior,
                            context.next,
                            Some(index),
                            admitted,
                            resolved_delta(delta, nodes, edges),
                        )
                        ||| ordinal is Some && exists|digest: Seq<char>|
                            delta_outcome(
                                #[trigger] ordinal_input(
                                    context,
                                    ordinal->0,
                                    resolved_delta(delta, nodes, edges),
                                    digest,
                                ),
                            ) is Err
                    }
                }
        }),
{
    let runs = index.runs;
    if unresolvable(error, runs, delta.deleted_nodes, delta.deleted_edges) {
        lemma_probe_answered(runs, UuidIndexKind::Edge, delta.deleted_edges, error);
        lemma_lookup_refused(runs, delta.deleted_nodes, error);
    } else if context.next == context.prior + 1 {
        let (nodes, edges) = choose|nodes: Seq<ForwardRecord>, edges: Seq<u128>|
            {
                &&& #[trigger] resolves(
                    nodes,
                    edges,
                    runs,
                    delta.deleted_nodes,
                    delta.deleted_edges,
                )
                &&& preparation_fails(
                    error,
                    context,
                    index,
                    admitted,
                    resolved_delta(delta, nodes, edges),
                    ordinal,
                )
            };
        let resolved = resolved_delta(delta, nodes, edges);
        if !planning(Err(error), context.prior, context.next, Some(index), admitted, resolved) {
            let digest = choose|digest: Seq<char>| #[trigger]
                is_delta_digest(digest, resolved) && ordinal_fails(
                    error,
                    ordinal_input(context, ordinal->0, resolved, digest),
                );
            assert(delta_outcome(ordinal_input(context, ordinal->0, resolved, digest)) is Err);
        }
    }
}

} // verus!
