//! Which topology an index can be rebuilt from, and what the index then says.
use vstd::prelude::*;

use crate::external_sort::{
    repeats, run_count, run_repeats, UuidIndexBuildLimits, UuidIndexBuildMetrics,
};
use crate::keyed::{has_key, key_determines, key_order, Keyed, lemma_key_order, share_key};
use crate::membership::IndexModel;
use crate::ordinal_delta::{as_surrogates, lemma_run_repeats_all, surrogate_fault};
use crate::probing::{is_live, live_surrogate, UuidIndexKind};
use crate::rebuild::{
    edge_rows, edge_uuids, EdgeRow, first_missing, id_rows, lemma_rebuilt_answers, links,
    mapping_rows, maps, merge_fault, node_mappings, node_uuids, NodeRow, rebuild_fault,
    rebuild_metrics, rebuilt, rows_fault, scan_fault, scan_values, ScanRow, uuid_rows,
};
use crate::records::{ForwardRecord, UuidRecord};

verus! {

/// Whether a topology names each of its nodes and edges once: every node has a
/// UUID and an identifier other than zero, every edge a UUID; no two nodes share
/// either, no two edges and no node and edge share a UUID.
pub open spec fn names_once(nodes: Seq<NodeRow>, edges: Seq<EdgeRow>) -> bool {
    &&& forall|i: int|
        0 <= i < nodes.len() ==> (#[trigger] nodes[i]).uuid is Some && nodes[i].node_id is Some
            && nodes[i].node_id->0 != 0
    &&& forall|i: int, j: int|
        0 <= i < j < nodes.len() ==> (#[trigger] nodes[i]).uuid != (#[trigger] nodes[j]).uuid
            && nodes[i].node_id != nodes[j].node_id
    &&& forall|i: int| 0 <= i < edges.len() ==> (#[trigger] edges[i]).uuid is Some
    &&& forall|i: int, j: int|
        0 <= i < j < edges.len() ==> (#[trigger] edges[i]).uuid != (#[trigger] edges[j]).uuid
    &&& forall|i: int, j: int|
        0 <= i < nodes.len() && 0 <= j < edges.len() ==> (#[trigger] nodes[i]).uuid != (
        #[trigger] edges[j]).uuid
}

proof fn lemma_missing<T>(rows: Seq<ScanRow<T>>)
    ensures
        first_missing(rows) < 0 <==> forall|i: int|
            0 <= i < rows.len() ==> (#[trigger] rows[i]).value is Some,
    decreases rows.len(),
{
    if rows.len() > 0 {
        let front = rows.drop_last();
        lemma_missing(front);
        assert(rows[rows.len() - 1] == rows.last());
        if first_missing(rows) < 0 {
            assert forall|i: int| 0 <= i < rows.len() implies (#[trigger] rows[i]).value is Some by {
                if i < front.len() {
                    assert(front[i] == rows[i]);
                }
            }
        }
        if forall|i: int| 0 <= i < rows.len() ==> (#[trigger] rows[i]).value is Some {
            assert forall|i: int| 0 <= i < front.len() implies (#[trigger] front[i]).value
                is Some by {
                assert(rows[i] == front[i]);
            }
        }
    }
}

/// Rows are scanned without a fault only where each has a value, and wherever each
/// has one and no key repeats.
pub proof fn lemma_scanned<T: Keyed>(
    rows: Seq<ScanRow<T>>,
    n: nat,
    invalid: Seq<char>,
    duplicate: Seq<char>,
)
    ensures
        scan_fault(rows, n, invalid, duplicate) is None ==> forall|i: int|
            0 <= i < rows.len() ==> (#[trigger] rows[i]).value is Some,
        (forall|i: int| 0 <= i < rows.len() ==> (#[trigger] rows[i]).value is Some) && !repeats(
            scan_values(rows),
        ) ==> scan_fault(rows, n, invalid, duplicate) is None,
{
    lemma_missing(rows);
    if run_repeats(scan_values(rows), n) {
        lemma_run_repeats_all(scan_values(rows), n);
    }
}

proof fn lemma_determines<T: Keyed>(items: Seq<T>)
    requires
        !repeats(items),
    ensures
        key_determines(items),
{
    assert forall|i: int, j: int|
        0 <= i < items.len() && 0 <= j < items.len() && (#[trigger] items[i]).key() == (
        #[trigger] items[j]).key() implies items[i] == items[j] by {
        if i < j || j < i {
            assert(repeats(items));
        }
    }
}

proof fn lemma_values(nodes: Seq<NodeRow>, edges: Seq<EdgeRow>)
    requires
        forall|i: int|
            0 <= i < nodes.len() ==> (#[trigger] nodes[i]).uuid is Some && nodes[i].node_id is Some
                && nodes[i].node_id->0 != 0,
        forall|i: int| 0 <= i < edges.len() ==> (#[trigger] edges[i]).uuid is Some,
    ensures
        !repeats(node_uuids(nodes)) <==> forall|i: int, j: int|
            0 <= i < j < nodes.len() ==> (#[trigger] nodes[i]).uuid != (#[trigger] nodes[j]).uuid,
        repeats(node_mappings(nodes)) <==> repeats(node_uuids(nodes)),
        !repeats(scan_values(id_rows(nodes))) <==> forall|i: int, j: int|
            0 <= i < j < nodes.len() ==> (#[trigger] nodes[i]).node_id != (
            #[trigger] nodes[j]).node_id,
        !repeats(edge_uuids(edges)) <==> forall|i: int, j: int|
            0 <= i < j < edges.len() ==> (#[trigger] edges[i]).uuid != (#[trigger] edges[j]).uuid,
{
    let uuids = node_uuids(nodes);
    let mappings = node_mappings(nodes);
    let ids = scan_values(id_rows(nodes));
    let links = edge_uuids(edges);
    assert forall|i: int| 0 <= i < nodes.len() implies (#[trigger] uuids[i]).uuid == nodes[i].uuid->0
        && mappings[i].uuid == nodes[i].uuid->0 && mappings[i].node_id == nodes[i].node_id->0
        && ids[i].node_id == nodes[i].node_id->0 by {
        assert(nodes[i].uuid is Some);
    }
    assert forall|i: int| 0 <= i < edges.len() implies (#[trigger] links[i]).uuid
        == edges[i].uuid->0 by {
        assert(edges[i].uuid is Some);
    }
    if repeats(uuids) {
        let (i, j) = choose|i: int, j: int|
            0 <= i < j < uuids.len() && (#[trigger] uuids[i]).key() == (#[trigger] uuids[j]).key();
        assert(nodes[i].uuid is Some && nodes[j].uuid is Some);
        assert(nodes[i].uuid == nodes[j].uuid);
        assert(mappings[i].key() == mappings[j].key());
    } else {
        assert forall|i: int, j: int| 0 <= i < j < nodes.len() implies (#[trigger] nodes[i]).uuid
            != (#[trigger] nodes[j]).uuid by {
            if nodes[i].uuid == nodes[j].uuid {
                assert(uuids[i].key() == uuids[j].key());
            }
        }
    }
    if repeats(mappings) {
        let (i, j) = choose|i: int, j: int|
            0 <= i < j < mappings.len() && (#[trigger] mappings[i]).key() == (
            #[trigger] mappings[j]).key();
        assert(uuids[i].key() == uuids[j].key());
    }
    if repeats(ids) {
        let (i, j) = choose|i: int, j: int|
            0 <= i < j < ids.len() && (#[trigger] ids[i]).key() == (#[trigger] ids[j]).key();
        assert(uuids[i].uuid == nodes[i].uuid->0 && uuids[j].uuid == nodes[j].uuid->0);
        assert(nodes[i].node_id is Some && nodes[j].node_id is Some);
        assert(nodes[i].node_id == nodes[j].node_id);
    } else {
        assert forall|i: int, j: int| 0 <= i < j < nodes.len() implies (
        #[trigger] nodes[i]).node_id != (#[trigger] nodes[j]).node_id by {
            if nodes[i].node_id == nodes[j].node_id {
                assert(uuids[i].uuid == nodes[i].uuid->0 && uuids[j].uuid == nodes[j].uuid->0);
                assert(ids[i].key() == ids[j].key());
            }
        }
    }
    if repeats(links) {
        let (i, j) = choose|i: int, j: int|
            0 <= i < j < links.len() && (#[trigger] links[i]).key() == (#[trigger] links[j]).key();
        assert(edges[i].uuid == edges[j].uuid);
    } else {
        assert forall|i: int, j: int| 0 <= i < j < edges.len() implies (#[trigger] edges[i]).uuid
            != (#[trigger] edges[j]).uuid by {
            if edges[i].uuid == edges[j].uuid {
                assert(links[i].key() == links[j].key());
            }
        }
    }
}

proof fn lemma_apart(nodes: Seq<NodeRow>, edges: Seq<EdgeRow>)
    requires
        forall|i: int| 0 <= i < nodes.len() ==> (#[trigger] nodes[i]).uuid is Some,
        forall|i: int| 0 <= i < edges.len() ==> (#[trigger] edges[i]).uuid is Some,
        !repeats(node_uuids(nodes)),
        !repeats(edge_uuids(edges)),
    ensures
        !share_key(key_order(node_uuids(nodes)), key_order(edge_uuids(edges))) <==> forall|
            i: int,
            j: int,
        |
            0 <= i < nodes.len() && 0 <= j < edges.len() ==> (#[trigger] nodes[i]).uuid != (
            #[trigger] edges[j]).uuid,
{
    let uuids = node_uuids(nodes);
    let links = edge_uuids(edges);
    let a = key_order(uuids);
    let b = key_order(links);
    lemma_determines(uuids);
    lemma_determines(links);
    lemma_key_order(uuids);
    lemma_key_order(links);
    if share_key(a, b) {
        let i = choose|i: int| 0 <= i < a.len() && has_key(b, (#[trigger] a[i]).key());
        let j = choose|j: int| 0 <= j < b.len() && (#[trigger] b[j]).key() == a[i].key();
        assert(a.contains(a[i]) && b.contains(b[j]));
        assert(uuids.contains(a[i]) && links.contains(b[j]));
        let k = choose|k: int| 0 <= k < uuids.len() && uuids[k] == a[i];
        let m = choose|m: int| 0 <= m < links.len() && links[m] == b[j];
        assert(nodes[k].uuid is Some && edges[m].uuid is Some);
        assert(nodes[k].uuid == edges[m].uuid);
    } else {
        assert forall|i: int, j: int| 0 <= i < nodes.len() && 0 <= j < edges.len() implies (
        #[trigger] nodes[i]).uuid != (#[trigger] edges[j]).uuid by {
            if nodes[i].uuid == edges[j].uuid {
                assert(uuids[i].key() == links[j].key());
                assert(uuids.contains(uuids[i]) && links.contains(links[j]));
                assert(a.contains(uuids[i]) && b.contains(links[j]));
                let k = choose|k: int| 0 <= k < a.len() && a[k] == uuids[i];
                let m = choose|m: int| 0 <= m < b.len() && b[m] == links[j];
                assert(b[m].key() == a[k].key());
                assert(has_key(b, a[k].key()));
                assert(share_key(a, b));
            }
        }
    }
}

proof fn lemma_ids_once(nodes: Seq<NodeRow>, n: nat)
    requires
        forall|i: int|
            0 <= i < nodes.len() ==> (#[trigger] nodes[i]).uuid is Some && nodes[i].node_id is Some
                && nodes[i].node_id->0 != 0,
        !repeats(node_mappings(nodes)),
        !repeats(scan_values(id_rows(nodes))),
    ensures
        surrogate_fault(key_order(node_mappings(nodes)), n) is None,
{
    let mappings = node_mappings(nodes);
    let ids = scan_values(id_rows(nodes));
    let sorted = key_order(mappings);
    let pairs = as_surrogates(sorted);
    lemma_determines(mappings);
    lemma_key_order(mappings);
    if repeats(pairs) {
        let (i, j) = choose|i: int, j: int|
            0 <= i < j < pairs.len() && (#[trigger] pairs[i]).key() == (#[trigger] pairs[j]).key();
        assert(sorted.contains(sorted[i]) && sorted.contains(sorted[j]));
        assert(mappings.contains(sorted[i]) && mappings.contains(sorted[j]));
        let k = choose|k: int| 0 <= k < mappings.len() && mappings[k] == sorted[i];
        let m = choose|m: int| 0 <= m < mappings.len() && mappings[m] == sorted[j];
        assert(sorted[i].key() < sorted[j].key());
        assert(nodes[k].uuid is Some && nodes[m].uuid is Some);
        assert(ids[k].key() == ids[m].key());
        if k < m || m < k {
            assert(repeats(ids));
        }
    }
    if run_repeats(pairs, n) {
        lemma_run_repeats_all(pairs, n);
    }
}

/// An index is rebuilt exactly from a topology that names its nodes and edges
/// once, whatever the limits of sorting are, as long as they are usable.
pub proof fn lemma_rebuildable(
    nodes: Seq<NodeRow>,
    edges: Seq<EdgeRow>,
    limits: UuidIndexBuildLimits,
)
    ensures
        rebuild_fault(nodes, edges, limits) is None <==> {
            &&& limits.scan_batch_rows > 0
            &&& limits.run_records > 0
            &&& limits.merge_fan_in >= 2
            &&& names_once(nodes, edges)
        },
{
    let n = limits.run_records as nat;
    lemma_scanned(
        uuid_rows(nodes),
        n,
        "invalid node_uuid at row "@,
        "duplicate node UUID in canonical topology"@,
    );
    lemma_scanned(
        mapping_rows(nodes),
        n,
        "invalid entity identity at row "@,
        "duplicate UUID in canonical topology"@,
    );
    lemma_scanned(
        id_rows(nodes),
        n,
        "invalid node surrogate at row "@,
        "duplicate node surrogate in canonical topology"@,
    );
    lemma_scanned(
        edge_rows(edges),
        n,
        "invalid edge_uuid at row "@,
        "duplicate edge UUID in canonical topology"@,
    );
    if rebuild_fault(nodes, edges, limits) is None {
        assert(rows_fault(nodes, edges, n) is None);
        assert(merge_fault(nodes, edges, n) is None);
        assert forall|i: int| 0 <= i < nodes.len() implies (#[trigger] nodes[i]).uuid is Some
            && nodes[i].node_id is Some && nodes[i].node_id->0 != 0 by {
            assert(uuid_rows(nodes)[i].value is Some);
            assert(id_rows(nodes)[i].value is Some);
        }
        assert forall|i: int| 0 <= i < edges.len() implies (#[trigger] edges[i]).uuid is Some by {
            assert(edge_rows(edges)[i].value is Some);
        }
        lemma_values(nodes, edges);
        lemma_apart(nodes, edges);
    }
    if names_once(nodes, edges) && limits.valid() {
        lemma_values(nodes, edges);
        lemma_apart(nodes, edges);
        assert forall|i: int| 0 <= i < nodes.len() implies (#[trigger] uuid_rows(nodes)[i]).value
            is Some && mapping_rows(nodes)[i].value is Some && id_rows(nodes)[i].value is Some by {
            assert(nodes[i].uuid is Some);
        }
        assert forall|i: int| 0 <= i < nodes.len() implies (
        #[trigger] mapping_rows(nodes)[i]).value is Some by {
            assert(uuid_rows(nodes)[i].value is Some);
        }
        assert forall|i: int| 0 <= i < nodes.len() implies (#[trigger] id_rows(nodes)[i]).value
            is Some by {
            assert(uuid_rows(nodes)[i].value is Some);
        }
        assert forall|i: int| 0 <= i < edges.len() implies (#[trigger] edge_rows(edges)[i]).value
            is Some by {
            assert(edges[i].uuid is Some);
        }
        lemma_ids_once(nodes, n);
    }
}

/// A rebuilt index says what the topology says: a node of it is live under its
/// identifier, an edge of it is live, and nothing else is.
pub proof fn lemma_rebuilt_says(
    index: IndexModel,
    metrics: UuidIndexBuildMetrics,
    generation: u64,
    nodes: Seq<NodeRow>,
    edges: Seq<EdgeRow>,
    limits: UuidIndexBuildLimits,
    uuid: u128,
)
    requires
        rebuild_fault(nodes, edges, limits) is None,
        rebuilt(index, metrics, generation, nodes, edges, limits),
    ensures
        index.current_generation == generation,
        forall|node_id: u64| #[trigger]
            names_node(nodes, uuid, node_id) <==> live_surrogate(index.runs, uuid) == Some(node_id),
        is_live(index.runs, UuidIndexKind::Edge, uuid) <==> exists|i: int|
            0 <= i < edges.len() && (#[trigger] edges[i]).uuid == Some(uuid),
{
    lemma_rebuilt_answers(index, metrics, generation, nodes, edges, limits, uuid);
    lemma_rebuildable(nodes, edges, limits);
    let mappings = node_mappings(nodes);
    let uuids = edge_uuids(edges);
    assert forall|node_id: u64| #[trigger]
        names_node(nodes, uuid, node_id) <==> live_surrogate(index.runs, uuid) == Some(
            node_id,
        ) by {
        let record = ForwardRecord { uuid, node_id };
        assert(live_surrogate(index.runs, uuid) == Some(node_id) <==> maps(nodes, uuid, node_id));
        if names_node(nodes, uuid, node_id) {
            let i = choose|i: int|
                0 <= i < nodes.len() && (#[trigger] nodes[i]).uuid == Some(uuid)
                    && nodes[i].node_id == Some(node_id);
            assert(mappings[i] == record);
            assert(mappings.contains(record));
        }
        if mappings.contains(record) {
            let i = choose|i: int| 0 <= i < mappings.len() && mappings[i] == record;
            assert(nodes[i].uuid is Some && nodes[i].node_id is Some);
            assert(nodes[i].uuid == Some(uuid) && nodes[i].node_id == Some(node_id));
        }
    }
    if links(edges, uuid) {
        let i = choose|i: int| 0 <= i < uuids.len() && uuids[i] == (UuidRecord { uuid });
        assert(edges[i].uuid is Some);
        assert(edges[i].uuid == Some(uuid));
    }
    if exists|i: int| 0 <= i < edges.len() && (#[trigger] edges[i]).uuid == Some(uuid) {
        let i = choose|i: int| 0 <= i < edges.len() && (#[trigger] edges[i]).uuid == Some(uuid);
        assert(uuids[i] == (UuidRecord { uuid }));
        assert(uuids.contains(UuidRecord { uuid }));
    }
}

/// Whether a row of the topology gives a node this identifier.
pub open spec fn names_node(nodes: Seq<NodeRow>, uuid: u128, node_id: u64) -> bool {
    exists|i: int|
        0 <= i < nodes.len() && (#[trigger] nodes[i]).uuid == Some(uuid) && nodes[i].node_id
            == Some(node_id)
}

/// Records are cut into as few runs as hold them.
pub proof fn lemma_fewest_runs(len: nat, n: nat)
    requires
        n > 0,
    ensures
        run_count(len, n) * n >= len,
        len > 0 ==> (run_count(len, n) - 1) * n < len,
        len == 0 ==> run_count(len, n) == 0,
    decreases len,
{
    if len > n {
        let rest = (len - n) as nat;
        lemma_fewest_runs(rest, n);
        let r = run_count(rest, n);
        assert(run_count(len, n) == 1 + r);
        assert((1 + r) * n == n + r * n) by (nonlinear_arith);
        assert(((1 + r) - 1) * n == (r - 1) * n + n) by (nonlinear_arith);
    } else {
        assert(1 * n == n && 0 * n == 0);
    }
}

/// Rebuilding never holds more records than a run may have, and no more than
/// there are.
pub proof fn lemma_rebuild_peak(nodes: nat, edges: nat, limits: UuidIndexBuildLimits)
    requires
        nodes <= u64::MAX,
        edges <= u64::MAX,
    ensures
        rebuild_metrics(nodes, edges, limits).peak_buffered_records == ({
            let most = if nodes < edges {
                edges
            } else {
                nodes
            };
            if most < limits.run_records {
                most
            } else {
                limits.run_records as nat
            }
        }),
{
}

} // verus!
