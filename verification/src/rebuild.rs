//! Rebuilding the identity indexes from canonical topology rows.
use vstd::prelude::*;
use vstd::string::*;

use crate::bytes::{ascii, decimal, decimal_text};
use crate::error::{GfError, storage_err};
use crate::external_sort::{
    copy_range, external_sort, no_rebuild_metrics, Repeat, repeats, repeats_within_run,
    run_repeats, sorted_metrics, UuidIndexBuildLimits, UuidIndexBuildMetrics,
};
use crate::framing::{all_valid, Framed, lemma_scan_packed, pack};
use crate::identity_codec::Identity;
use crate::index_format::{FORMAT_VERSION, RunRecord};
use crate::keyed::{is_union, key_order, Keyed, merge_disjoint, ordered, share_key};
use crate::membership::{IndexModel, UuidMembershipIndex};
use crate::ordinal_delta::{as_surrogates, build_surrogate_run, surrogate_fault};
use crate::probing::{
    is_live, lemma_state_in_ordered, live_surrogate, membership, speaks_of, state_in,
    UuidIndexKind,
};
use crate::records::{ForwardRecord, NodeSurrogate, UuidRecord};
use crate::runs::{describe_run, descriptors_valid, IndexFile, newly_described, OpenRun, RunModel};
use crate::topology_delta::{edge_identities, node_identities};

verus! {

/// A row of the node topology.
#[derive(Clone, Copy, Debug, PartialEq, Eq, Structural)]
pub struct NodeRow {
    /// Place in its batch.
    pub row: u64,
    /// UUID; absent where it is null or not 16 bytes long.
    pub uuid: Option<u128>,
    /// Node identifier; absent where it is null.
    pub node_id: Option<u64>,
}

/// A row of the edge topology.
#[derive(Clone, Copy, Debug, PartialEq, Eq, Structural)]
pub struct EdgeRow {
    /// Place in its batch.
    pub row: u64,
    /// UUID; absent where it is null or not 16 bytes long.
    pub uuid: Option<u128>,
}

/// A node identifier on its own.
#[derive(Clone, Copy, Debug, PartialEq, Eq, Structural)]
pub struct NodeId {
    /// Node identifier.
    pub node_id: u64,
}

impl Keyed for NodeId {
    open spec fn key(self) -> int {
        self.node_id as int
    }

    fn before(&self, other: &Self) -> (less: bool) {
        self.node_id < other.node_id
    }
}

/// What one scan takes from a row.
#[derive(Debug)]
pub struct ScanRow<T> {
    /// Place in its batch.
    pub row: u64,
    /// The value; absent where the row has none.
    pub value: Option<T>,
}

/// The values of rows that have one.
pub open spec fn scan_values<T>(rows: Seq<ScanRow<T>>) -> Seq<T> {
    Seq::new(rows.len(), |i: int| rows[i].value->0)
}

/// The position of the first row without a value, or -1.
pub open spec fn first_missing<T>(rows: Seq<ScanRow<T>>) -> int
    decreases rows.len(),
{
    if rows.len() == 0 {
        -1
    } else {
        let before = first_missing(rows.drop_last());
        if before >= 0 {
            before
        } else if rows.last().value is None {
            rows.len() - 1
        } else {
            -1
        }
    }
}

/// What is said of a row without a value.
pub open spec fn row_text(invalid: Seq<char>, row: u64) -> Seq<char> {
    invalid + ascii(decimal_text(row as nat))
}

/// Why rows cannot be scanned in runs of `n`, if they cannot: a run is looked
/// through when it is complete, and a row when it is reached.
pub open spec fn scan_fault<T: Keyed>(
    rows: Seq<ScanRow<T>>,
    n: nat,
    invalid: Seq<char>,
    duplicate: Seq<char>,
) -> Option<Seq<char>> {
    let missing = first_missing(rows);
    if missing >= 0 {
        if run_repeats(scan_values(rows.take(missing / n as int * n)), n) {
            Some(duplicate)
        } else {
            Some(row_text(invalid, rows[missing].row))
        }
    } else if run_repeats(scan_values(rows), n) {
        Some(duplicate)
    } else {
        None
    }
}

proof fn lemma_first_missing<T>(rows: Seq<ScanRow<T>>, n: int)
    requires
        0 <= n <= rows.len(),
        first_missing(rows.take(n)) >= 0,
    ensures
        first_missing(rows) == first_missing(rows.take(n)),
    decreases rows.len(),
{
    if n < rows.len() {
        assert(rows.drop_last().take(n) =~= rows.take(n));
        lemma_first_missing(rows.drop_last(), n);
    } else {
        assert(rows.take(n) =~= rows);
    }
}

fn scan_rows<T: Keyed>(
    rows: &Vec<ScanRow<T>>,
    n: usize,
    invalid: &str,
    duplicate: &str,
) -> (values: Result<Vec<T>, GfError>)
    requires
        n > 0,
    ensures
        ({
            let fault = scan_fault(rows@, n as nat, invalid@, duplicate@);
            match values {
                Ok(values) => fault is None && values@ == scan_values(rows@),
                Err(error) => fault is Some && error.is_storage(fault->0),
            }
        }),
{
    let mut values: Vec<T> = Vec::new();
    let mut i: usize = 0;
    assert(scan_values(rows@.take(0)) =~= Seq::<T>::empty());
    while i < rows.len()
        invariant
            n > 0,
            i <= rows.len(),
            values@ == scan_values(rows@.take(i as int)),
            first_missing(rows@.take(i as int)) < 0,
        decreases rows.len() - i,
    {
        assert(rows@.take(i + 1).drop_last() =~= rows@.take(i as int));
        match rows[i].value {
            Some(value) => {
                values.push(value);
                assert(values@ =~= scan_values(rows@.take(i + 1)));
            },
            None => {
                proof {
                    lemma_first_missing(rows@, i + 1);
                    assert(i / n * n <= i && i / n >= 0) by (nonlinear_arith)
                        requires
                            n > 0,
                    ;
                }
                let kept: usize = i / n * n;
                let head: Vec<T> = copy_range(&values, 0, kept);
                assert(head@ =~= scan_values(rows@.take(i as int / n as int * n)));
                if repeats_within_run(&head, n) {
                    return Err(storage_err(duplicate));
                }
                let mut text: String = invalid.to_owned();
                text.append(decimal(rows[i].row).as_str());
                return Err(GfError::Storage(text));
            },
        }
        i = i + 1;
    }
    assert(rows@.take(i as int) =~= rows@);
    if repeats_within_run(&values, n) {
        return Err(storage_err(duplicate));
    }
    Ok(values)
}

/// What the scan of node UUIDs takes.
pub open spec fn uuid_rows(nodes: Seq<NodeRow>) -> Seq<ScanRow<UuidRecord>> {
    Seq::new(
        nodes.len(),
        |i: int|
            ScanRow {
                row: nodes[i].row,
                value: match nodes[i].uuid {
                    Some(uuid) => Some(UuidRecord { uuid }),
                    None => None,
                },
            },
    )
}

/// What the scan of node mappings takes.
pub open spec fn mapping_rows(nodes: Seq<NodeRow>) -> Seq<ScanRow<ForwardRecord>> {
    Seq::new(
        nodes.len(),
        |i: int|
            ScanRow {
                row: nodes[i].row,
                value: match (nodes[i].uuid, nodes[i].node_id) {
                    (Some(uuid), Some(node_id)) => Some(ForwardRecord { uuid, node_id }),
                    _ => None,
                },
            },
    )
}

/// What the scan of node identifiers takes: zero is none.
pub open spec fn id_rows(nodes: Seq<NodeRow>) -> Seq<ScanRow<NodeId>> {
    Seq::new(
        nodes.len(),
        |i: int|
            ScanRow {
                row: nodes[i].row,
                value: match nodes[i].node_id {
                    Some(node_id) => if node_id == 0 {
                        None
                    } else {
                        Some(NodeId { node_id })
                    },
                    None => None,
                },
            },
    )
}

/// What the scan of edge UUIDs takes.
pub open spec fn edge_rows(edges: Seq<EdgeRow>) -> Seq<ScanRow<UuidRecord>> {
    Seq::new(
        edges.len(),
        |i: int|
            ScanRow {
                row: edges[i].row,
                value: match edges[i].uuid {
                    Some(uuid) => Some(UuidRecord { uuid }),
                    None => None,
                },
            },
    )
}

fn take_uuid_rows(nodes: &Vec<NodeRow>) -> (rows: Vec<ScanRow<UuidRecord>>)
    ensures
        rows@ == uuid_rows(nodes@),
{
    let mut rows: Vec<ScanRow<UuidRecord>> = Vec::new();
    let mut i: usize = 0;
    while i < nodes.len()
        invariant
            i <= nodes@.len(),
            rows@ == uuid_rows(nodes@).take(i as int),
        decreases nodes.len() - i,
    {
        let value: Option<UuidRecord> = match nodes[i].uuid {
            Some(uuid) => Some(UuidRecord { uuid }),
            None => None,
        };
        rows.push(ScanRow { row: nodes[i].row, value });
        i = i + 1;
        assert(rows@ =~= uuid_rows(nodes@).take(i as int));
    }
    assert(rows@ =~= uuid_rows(nodes@));
    rows
}

fn take_mapping_rows(nodes: &Vec<NodeRow>) -> (rows: Vec<ScanRow<ForwardRecord>>)
    ensures
        rows@ == mapping_rows(nodes@),
{
    let mut rows: Vec<ScanRow<ForwardRecord>> = Vec::new();
    let mut i: usize = 0;
    while i < nodes.len()
        invariant
            i <= nodes@.len(),
            rows@ == mapping_rows(nodes@).take(i as int),
        decreases nodes.len() - i,
    {
        let value: Option<ForwardRecord> = match (nodes[i].uuid, nodes[i].node_id) {
            (Some(uuid), Some(node_id)) => Some(ForwardRecord { uuid, node_id }),
            _ => None,
        };
        rows.push(ScanRow { row: nodes[i].row, value });
        i = i + 1;
        assert(rows@ =~= mapping_rows(nodes@).take(i as int));
    }
    assert(rows@ =~= mapping_rows(nodes@));
    rows
}

fn take_id_rows(nodes: &Vec<NodeRow>) -> (rows: Vec<ScanRow<NodeId>>)
    ensures
        rows@ == id_rows(nodes@),
{
    let mut rows: Vec<ScanRow<NodeId>> = Vec::new();
    let mut i: usize = 0;
    while i < nodes.len()
        invariant
            i <= nodes@.len(),
            rows@ == id_rows(nodes@).take(i as int),
        decreases nodes.len() - i,
    {
        let value: Option<NodeId> = match nodes[i].node_id {
            Some(node_id) => if node_id == 0 {
                None
            } else {
                Some(NodeId { node_id })
            },
            None => None,
        };
        rows.push(ScanRow { row: nodes[i].row, value });
        i = i + 1;
        assert(rows@ =~= id_rows(nodes@).take(i as int));
    }
    assert(rows@ =~= id_rows(nodes@));
    rows
}

fn take_edge_rows(edges: &Vec<EdgeRow>) -> (rows: Vec<ScanRow<UuidRecord>>)
    ensures
        rows@ == edge_rows(edges@),
{
    let mut rows: Vec<ScanRow<UuidRecord>> = Vec::new();
    let mut i: usize = 0;
    while i < edges.len()
        invariant
            i <= edges@.len(),
            rows@ == edge_rows(edges@).take(i as int),
        decreases edges.len() - i,
    {
        let value: Option<UuidRecord> = match edges[i].uuid {
            Some(uuid) => Some(UuidRecord { uuid }),
            None => None,
        };
        rows.push(ScanRow { row: edges[i].row, value });
        i = i + 1;
        assert(rows@ =~= edge_rows(edges@).take(i as int));
    }
    assert(rows@ =~= edge_rows(edges@));
    rows
}

/// Why rows cannot be scanned, if they cannot.
pub open spec fn rows_fault(nodes: Seq<NodeRow>, edges: Seq<EdgeRow>, n: nat) -> Option<Seq<char>> {
    match scan_fault(
        uuid_rows(nodes),
        n,
        "invalid node_uuid at row "@,
        "duplicate node UUID in canonical topology"@,
    ) {
        Some(text) => Some(text),
        None => match mapping_scan_fault(nodes, n) {
            Some(text) => Some(text),
            None => match scan_fault(
                id_rows(nodes),
                n,
                "invalid node surrogate at row "@,
                "duplicate node surrogate in canonical topology"@,
            ) {
                Some(text) => Some(text),
                None => scan_fault(
                    edge_rows(edges),
                    n,
                    "invalid edge_uuid at row "@,
                    "duplicate edge UUID in canonical topology"@,
                ),
            },
        },
    }
}

/// Why node mappings cannot be scanned, if they cannot.
pub open spec fn mapping_scan_fault(nodes: Seq<NodeRow>, n: nat) -> Option<Seq<char>> {
    scan_fault(
        mapping_rows(nodes),
        n,
        "invalid entity identity at row "@,
        "duplicate UUID in canonical topology"@,
    )
}

/// Scan node mappings.
pub(crate) fn scan_mappings(nodes: &Vec<NodeRow>, n: usize) -> (mappings: Result<
    Vec<ForwardRecord>,
    GfError,
>)
    requires
        n > 0,
    ensures
        match mappings {
            Ok(mappings) => mapping_scan_fault(nodes@, n as nat) is None && mappings@
                == node_mappings(nodes@) && !run_repeats(mappings@, n as nat),
            Err(error) => mapping_scan_fault(nodes@, n as nat) is Some && error.is_storage(
                mapping_scan_fault(nodes@, n as nat)->0,
            ),
        },
{
    scan_rows(
        &take_mapping_rows(nodes),
        n,
        "invalid entity identity at row ",
        "duplicate UUID in canonical topology",
    )
}

/// The UUIDs of the nodes.
pub open spec fn node_uuids(nodes: Seq<NodeRow>) -> Seq<UuidRecord> {
    scan_values(uuid_rows(nodes))
}

/// The mappings of the nodes.
pub open spec fn node_mappings(nodes: Seq<NodeRow>) -> Seq<ForwardRecord> {
    scan_values(mapping_rows(nodes))
}

/// The UUIDs of the edges.
pub open spec fn edge_uuids(edges: Seq<EdgeRow>) -> Seq<UuidRecord> {
    scan_values(edge_rows(edges))
}

/// Why scanned rows cannot be merged, if they cannot.
pub open spec fn merge_fault(nodes: Seq<NodeRow>, edges: Seq<EdgeRow>, n: nat) -> Option<Seq<char>> {
    if repeats(node_uuids(nodes)) {
        Some("duplicate UUID across external index runs"@)
    } else if repeats(node_mappings(nodes)) {
        Some("duplicate node UUID across external index runs"@)
    } else if repeats(scan_values(id_rows(nodes))) {
        Some("duplicate node surrogate across external index runs"@)
    } else if repeats(edge_uuids(edges)) {
        Some("duplicate UUID across external index runs"@)
    } else if share_key(key_order(node_uuids(nodes)), key_order(edge_uuids(edges))) {
        Some("UUID occurs in both node and edge identity domains"@)
    } else {
        surrogate_fault(key_order(node_mappings(nodes)), n)
    }
}

/// Why rows cannot be indexed, if they cannot.
pub open spec fn rebuild_fault(
    nodes: Seq<NodeRow>,
    edges: Seq<EdgeRow>,
    limits: UuidIndexBuildLimits,
) -> Option<Seq<char>> {
    if !limits.valid() {
        Some("UUID index build limits are invalid"@)
    } else {
        match rows_fault(nodes, edges, limits.run_records as nat) {
            Some(text) => Some(text),
            None => merge_fault(nodes, edges, limits.run_records as nat),
        }
    }
}

/// UUIDs as plain numbers.
pub open spec fn plain_uuids(records: Seq<UuidRecord>) -> Seq<u128> {
    Seq::new(records.len(), |i: int| records[i].uuid)
}

/// Whether a run indexes these nodes and edges as the base of an index.
pub open spec fn indexes(
    run: RunModel,
    generation: u64,
    nodes: Seq<ForwardRecord>,
    edges: Seq<UuidRecord>,
    records: Seq<Identity>,
) -> bool {
    &&& ordered(records)
    &&& is_union(
        records,
        node_identities(key_order(nodes), 0),
        edge_identities(plain_uuids(key_order(edges)), 1),
    )
    &&& run.identities == pack(records)
    &&& run.node_surrogates == pack(key_order(as_surrogates(key_order(nodes))))
    &&& newly_described::<Identity>(
        run.run.identities,
        run.identities,
        "identities-v5"@,
        generation,
    )
    &&& newly_described::<NodeSurrogate>(
        run.run.node_surrogates,
        run.node_surrogates,
        "node-surrogates-v5"@,
        generation,
    )
    &&& run.run.base
    &&& run.run.level == 0
    &&& run.run.first_generation == 0
    &&& run.run.last_generation == generation
    &&& run.run.node_count == run.run.node_surrogates.count
    &&& run.run.edge_count == if run.run.identities.count < run.run.node_surrogates.count {
        0
    } else {
        run.run.identities.count - run.run.node_surrogates.count
    }
    &&& run.run.deleted_node_count == 0
    &&& run.run.deleted_edge_count == 0
}

/// Whether a run indexes these nodes and edges as the base of an index.
pub open spec fn is_base_run(
    run: RunModel,
    generation: u64,
    nodes: Seq<ForwardRecord>,
    edges: Seq<UuidRecord>,
) -> bool {
    exists|records: Seq<Identity>| #[trigger] indexes(run, generation, nodes, edges, records)
}

/// Counters of a rebuild before the counts of its run.
pub open spec fn rebuild_metrics(nodes: nat, edges: nat, limits: UuidIndexBuildLimits) -> UuidIndexBuildMetrics {
    let uuids = sorted_metrics(no_rebuild_metrics(), nodes, limits, true);
    let mappings = sorted_metrics(uuids, nodes, limits, true);
    let ids = sorted_metrics(mappings, nodes, limits, true);
    let sorted_edges = sorted_metrics(ids, edges, limits, true);
    sorted_metrics(sorted_edges, nodes, limits, false)
}

/// Whether an index and its counters are the rebuilt ones.
pub open spec fn rebuilt(
    index: IndexModel,
    metrics: UuidIndexBuildMetrics,
    generation: u64,
    nodes: Seq<NodeRow>,
    edges: Seq<EdgeRow>,
    limits: UuidIndexBuildLimits,
) -> bool {
    &&& index.format_version == FORMAT_VERSION
    &&& index.base_generation == generation
    &&& index.current_generation == generation
    &&& index.runs.len() == 1
    &&& is_base_run(index.runs[0], generation, node_mappings(nodes), edge_uuids(edges))
    &&& index.live_node_count == index.runs[0].run.node_count
    &&& index.live_edge_count == index.runs[0].run.edge_count
    &&& metrics == (UuidIndexBuildMetrics {
        node_count: index.live_node_count,
        edge_count: index.live_edge_count,
        ..rebuild_metrics(nodes.len(), edges.len(), limits)
    })
}

pub(crate) fn sort_scanned<T: Keyed>(
    values: &Vec<T>,
    limits: UuidIndexBuildLimits,
    metrics: &mut UuidIndexBuildMetrics,
    duplicate: &str,
) -> (sorted: Result<Vec<T>, GfError>)
    requires
        limits.valid(),
        !run_repeats(values@, limits.run_records as nat),
    ensures
        match sorted {
            Ok(sorted) => !repeats(values@) && ordered(sorted@) && sorted@ == key_order(values@)
                && *final(metrics) == sorted_metrics(*old(metrics), values@.len(), limits, true),
            Err(error) => repeats(values@) && error.is_storage(duplicate@),
        },
{
    match external_sort(values, limits, true, metrics) {
        Ok(sorted) => Ok(sorted),
        Err(Repeat::WithinRun) => Err(storage_err(duplicate)),
        Err(Repeat::AcrossRuns) => Err(storage_err(duplicate)),
    }
}

fn live_nodes(mappings: &Vec<ForwardRecord>) -> (records: Vec<Identity>)
    requires
        ordered(mappings@),
    ensures
        records@ == node_identities(mappings@, 0),
        ordered(records@),
{
    let mut records: Vec<Identity> = Vec::new();
    let mut i: usize = 0;
    while i < mappings.len()
        invariant
            i <= mappings@.len(),
            records@ == node_identities(mappings@, 0).take(i as int),
        decreases mappings.len() - i,
    {
        records.push(
            Identity { uuid: mappings[i].uuid, kind: 0, surrogate: mappings[i].node_id },
        );
        i = i + 1;
        assert(records@ =~= node_identities(mappings@, 0).take(i as int));
    }
    assert(records@ =~= node_identities(mappings@, 0));
    assert forall|a: int, b: int| 0 <= a < b < records@.len() implies (
    #[trigger] records@[a]).key() < (#[trigger] records@[b]).key() by {
        assert(mappings@[a].key() < mappings@[b].key());
    }
    records
}

fn live_edges(edges: &Vec<UuidRecord>) -> (records: Vec<Identity>)
    requires
        ordered(edges@),
    ensures
        records@ == edge_identities(plain_uuids(edges@), 1),
        ordered(records@),
{
    let ghost want = edge_identities(plain_uuids(edges@), 1);
    let mut records: Vec<Identity> = Vec::new();
    let mut i: usize = 0;
    while i < edges.len()
        invariant
            i <= edges@.len(),
            want == edge_identities(plain_uuids(edges@), 1),
            records@ == want.take(i as int),
        decreases edges.len() - i,
    {
        records.push(Identity { uuid: edges[i].uuid, kind: 1, surrogate: 0 });
        i = i + 1;
        assert(records@ =~= want.take(i as int));
    }
    assert(records@ =~= want);
    assert forall|a: int, b: int| 0 <= a < b < records@.len() implies (
    #[trigger] records@[a]).key() < (#[trigger] records@[b]).key() by {
        assert(edges@[a].key() < edges@[b].key());
    }
    records
}

/// A rebuilt index.
#[derive(Debug, PartialEq, Eq)]
pub struct RebuiltIndex {
    /// The index; its one run holds the contents of both files.
    pub index: UuidMembershipIndex,
    /// Counters.
    pub metrics: UuidIndexBuildMetrics,
}

fn base_run(
    generation: u64,
    mappings: &Vec<ForwardRecord>,
    edges: &Vec<UuidRecord>,
    surrogates: &Vec<NodeSurrogate>,
    Ghost(nodes): Ghost<Seq<ForwardRecord>>,
    Ghost(uuids): Ghost<Seq<UuidRecord>>,
) -> (run: Result<OpenRun, GfError>)
    requires
        ordered(mappings@),
        ordered(edges@),
        ordered(surrogates@),
        mappings@ == key_order(nodes),
        edges@ == key_order(uuids),
        surrogates@ == key_order(as_surrogates(mappings@)),
        !share_key(
            node_identities(mappings@, 0),
            edge_identities(plain_uuids(edges@), 1),
        ),
    ensures
        run is Ok,
        run matches Ok(run) ==> is_base_run(run@, generation, nodes, uuids),
{
    let left: Vec<Identity> = live_nodes(mappings);
    let right: Vec<Identity> = live_edges(edges);
    let records: Vec<Identity> = match merge_disjoint(&left, &right) {
        Some(records) => records,
        None => {
            return Err(storage_err("UUID occurs in both identity domains"));
        },
    };
    assert(all_valid(records@)) by {
        assert forall|i: int| 0 <= i < records@.len() implies (#[trigger] records@[i]).valid() by {
            assert(records@.contains(records@[i]));
            if left@.contains(records@[i]) {
                let j = choose|j: int| 0 <= j < left@.len() && left@[j] == records@[i];
            } else {
                let j = choose|j: int| 0 <= j < right@.len() && right@[j] == records@[i];
            }
        }
    }
    let identities: IndexFile = describe_run("identities-v5", generation, &records);
    let node_surrogates: IndexFile = describe_run("node-surrogates-v5", generation, surrogates);
    let node_count: u64 = node_surrogates.record.count;
    let edge_count: u64 = if identities.record.count < node_count {
        0
    } else {
        identities.record.count - node_count
    };
    let run = OpenRun {
        descriptor: RunRecord {
            base: true,
            level: 0,
            first_generation: 0,
            last_generation: generation,
            identities: identities.record,
            node_surrogates: node_surrogates.record,
            node_count,
            edge_count,
            deleted_node_count: 0,
            deleted_edge_count: 0,
        },
        identities: identities.bytes,
        node_surrogates: node_surrogates.bytes,
    };
    assert(indexes(run@, generation, nodes, uuids, records@));
    Ok(run)
}

proof fn lemma_domains(
    uuids: Seq<UuidRecord>,
    edges: Seq<UuidRecord>,
    nodes: Seq<NodeRow>,
    mappings: Seq<ForwardRecord>,
)
    requires
        first_missing(mapping_rows(nodes)) < 0,
        !repeats(node_uuids(nodes)),
        !repeats(node_mappings(nodes)),
        uuids == key_order(node_uuids(nodes)),
        mappings == key_order(node_mappings(nodes)),
        !share_key(uuids, edges),
    ensures
        !share_key(node_identities(mappings, 0), edge_identities(plain_uuids(edges), 1)),
{
    let left = node_identities(mappings, 0);
    let right = edge_identities(plain_uuids(edges), 1);
    if share_key(left, right) {
        let (i, j) = choose|i: int, j: int|
            0 <= i < left.len() && 0 <= j < right.len() && (#[trigger] left[i]).key() == (
            #[trigger] right[j]).key();
        lemma_distinct_determines(node_mappings(nodes));
        crate::keyed::lemma_key_order(node_mappings(nodes));
        assert(mappings.contains(mappings[i]));
        assert(node_mappings(nodes).contains(mappings[i]));
        let k = choose|k: int| 0 <= k < nodes.len() && node_mappings(nodes)[k] == mappings[i];
        lemma_all_present(mapping_rows(nodes), k);
        assert(node_uuids(nodes)[k].uuid == mappings[i].uuid);
        lemma_distinct_determines(node_uuids(nodes));
        crate::keyed::lemma_key_order(node_uuids(nodes));
        assert(node_uuids(nodes).contains(node_uuids(nodes)[k]));
        assert(uuids.contains(node_uuids(nodes)[k]));
        let m = choose|m: int| 0 <= m < uuids.len() && uuids[m] == node_uuids(nodes)[k];
        assert(uuids[m].key() == edges[j].key());
        assert(share_key(uuids, edges));
    }
}

proof fn lemma_distinct_determines<T: Keyed>(items: Seq<T>)
    requires
        !repeats(items),
    ensures
        crate::keyed::key_determines(items),
{
    assert forall|i: int, j: int|
        0 <= i < items.len() && 0 <= j < items.len() && (#[trigger] items[i]).key() == (
        #[trigger] items[j]).key() implies items[i] == items[j] by {
        if i != j {
            let a = if i < j {
                i
            } else {
                j
            };
            let b = if i < j {
                j
            } else {
                i
            };
            assert(items[a].key() == items[b].key());
        }
    }
}

proof fn lemma_all_present<T>(rows: Seq<ScanRow<T>>, k: int)
    requires
        first_missing(rows) < 0,
        0 <= k < rows.len(),
    ensures
        rows[k].value is Some,
    decreases rows.len(),
{
    if k < rows.len() - 1 {
        assert(rows.drop_last()[k] == rows[k]);
        lemma_all_present(rows.drop_last(), k);
    }
}

/// Rebuild the membership index of a generation from the rows of its topology.
pub fn rebuild_uuid_membership_indexes(
    generation: u64,
    nodes: &Vec<NodeRow>,
    edges: &Vec<EdgeRow>,
    limits: UuidIndexBuildLimits,
) -> (built: Result<RebuiltIndex, GfError>)
    ensures
        ({
            let fault = rebuild_fault(nodes@, edges@, limits);
            match built {
                Ok(built) => fault is None && rebuilt(
                    built.index@,
                    built.metrics,
                    generation,
                    nodes@,
                    edges@,
                    limits,
                ),
                Err(error) => fault is Some && error.is_storage(fault->0),
            }
        }),
{
    let limits: UuidIndexBuildLimits = match limits.validate() {
        Ok(limits) => limits,
        Err(error) => {
            return Err(error);
        },
    };
    let n: usize = limits.run_records;
    let uuids: Vec<UuidRecord> = match scan_rows(
        &take_uuid_rows(nodes),
        n,
        "invalid node_uuid at row ",
        "duplicate node UUID in canonical topology",
    ) {
        Ok(values) => values,
        Err(error) => {
            return Err(error);
        },
    };
    let mappings: Vec<ForwardRecord> = match scan_mappings(nodes, n) {
        Ok(values) => values,
        Err(error) => {
            return Err(error);
        },
    };
    let ids: Vec<NodeId> = match scan_rows(
        &take_id_rows(nodes),
        n,
        "invalid node surrogate at row ",
        "duplicate node surrogate in canonical topology",
    ) {
        Ok(values) => values,
        Err(error) => {
            return Err(error);
        },
    };
    let links: Vec<UuidRecord> = match scan_rows(
        &take_edge_rows(edges),
        n,
        "invalid edge_uuid at row ",
        "duplicate edge UUID in canonical topology",
    ) {
        Ok(values) => values,
        Err(error) => {
            return Err(error);
        },
    };
    let ghost sorted_nodes = mappings@;
    let ghost sorted_links = links@;
    let mut metrics: UuidIndexBuildMetrics = UuidIndexBuildMetrics::none();
    let uuids: Vec<UuidRecord> = match sort_scanned(
        &uuids,
        limits,
        &mut metrics,
        "duplicate UUID across external index runs",
    ) {
        Ok(sorted) => sorted,
        Err(error) => {
            return Err(error);
        },
    };
    let mappings: Vec<ForwardRecord> = match sort_scanned(
        &mappings,
        limits,
        &mut metrics,
        "duplicate node UUID across external index runs",
    ) {
        Ok(sorted) => sorted,
        Err(error) => {
            return Err(error);
        },
    };
    match sort_scanned(
        &ids,
        limits,
        &mut metrics,
        "duplicate node surrogate across external index runs",
    ) {
        Ok(_) => {},
        Err(error) => {
            return Err(error);
        },
    }
    let links: Vec<UuidRecord> = match sort_scanned(
        &links,
        limits,
        &mut metrics,
        "duplicate UUID across external index runs",
    ) {
        Ok(sorted) => sorted,
        Err(error) => {
            return Err(error);
        },
    };
    match merge_disjoint(&uuids, &links) {
        Some(_) => {},
        None => {
            return Err(storage_err("UUID occurs in both node and edge identity domains"));
        },
    }
    proof {
        lemma_key_order_len(mappings@, sorted_nodes);
        lemma_domains(uuids@, links@, nodes@, mappings@);
    }
    let surrogates: Vec<NodeSurrogate> = match build_surrogate_run(&mappings, limits, &mut metrics) {
        Ok(surrogates) => surrogates,
        Err(error) => {
            return Err(error);
        },
    };
    proof {
        lemma_surrogates_ordered(mappings@, limits.run_records as nat);
    }
    let run: OpenRun = match base_run(
        generation,
        &mappings,
        &links,
        &surrogates,
        Ghost(sorted_nodes),
        Ghost(sorted_links),
    ) {
        Ok(run) => run,
        Err(error) => {
            return Err(error);
        },
    };
    metrics.node_count = run.descriptor.node_count;
    metrics.edge_count = run.descriptor.edge_count;
    let ghost model = run@;
    let live_node_count: u64 = run.descriptor.node_count;
    let live_edge_count: u64 = run.descriptor.edge_count;
    let mut runs: Vec<OpenRun> = Vec::new();
    runs.push(run);
    let index = UuidMembershipIndex {
        format_version: FORMAT_VERSION,
        base_generation: generation,
        current_generation: generation,
        live_node_count,
        live_edge_count,
        runs,
    };
    assert(index@.runs[0] == model);
    assert(rebuilt(index@, metrics, generation, nodes@, edges@, limits));
    Ok(RebuiltIndex { index, metrics })
}

proof fn lemma_key_order_len<T: Keyed>(sorted: Seq<T>, items: Seq<T>)
    requires
        sorted == key_order(items),
        !repeats(items),
    ensures
        sorted.len() == items.len(),
{
    crate::external_sort::lemma_key_order_len(items);
}

proof fn lemma_surrogates_ordered(mappings: Seq<ForwardRecord>, n: nat)
    requires
        surrogate_fault(mappings, n) is None,
    ensures
        ordered(key_order(as_surrogates(mappings))),
{
    lemma_distinct_determines(as_surrogates(mappings));
    crate::keyed::lemma_key_order(as_surrogates(mappings));
}

/// Whether a node of the topology has this UUID and identifier.
pub open spec fn maps(nodes: Seq<NodeRow>, uuid: u128, node_id: u64) -> bool {
    node_mappings(nodes).contains(ForwardRecord { uuid, node_id })
}

/// Whether an edge of the topology has this UUID.
pub open spec fn links(edges: Seq<EdgeRow>, uuid: u128) -> bool {
    edge_uuids(edges).contains(UuidRecord { uuid })
}

proof fn lemma_run_records(
    run: RunModel,
    generation: u64,
    nodes: Seq<ForwardRecord>,
    edges: Seq<UuidRecord>,
    records: Seq<Identity>,
)
    requires
        indexes(run, generation, nodes, edges, records),
        !repeats(nodes),
        !repeats(edges),
    ensures
        run.identity_records() == records,
        ordered(records),
        forall|uuid: u128, node_id: u64|
            records.contains(Identity { uuid, kind: 0, surrogate: node_id })
                <==> #[trigger] nodes.contains(ForwardRecord { uuid, node_id }),
        forall|uuid: u128|
            records.contains(Identity { uuid, kind: 1, surrogate: 0 }) <==> #[trigger] edges.contains(
                UuidRecord { uuid },
            ),
        forall|i: int|
            0 <= i < records.len() ==> (#[trigger] records[i]).kind == 0 || (records[i].kind == 1
                && records[i].surrogate == 0),
{
    let left = node_identities(key_order(nodes), 0);
    let right = edge_identities(plain_uuids(key_order(edges)), 1);
    lemma_distinct_determines(nodes);
    lemma_distinct_determines(edges);
    crate::keyed::lemma_key_order(nodes);
    crate::keyed::lemma_key_order(edges);
    assert forall|i: int| 0 <= i < records.len() implies (#[trigger] records[i]).kind == 0 || (
    records[i].kind == 1 && records[i].surrogate == 0) by {
        assert(records.contains(records[i]));
        if left.contains(records[i]) {
            let j = choose|j: int| 0 <= j < left.len() && left[j] == records[i];
        } else {
            let j = choose|j: int| 0 <= j < right.len() && right[j] == records[i];
        }
    }
    assert forall|uuid: u128, node_id: u64|
        records.contains(Identity { uuid, kind: 0, surrogate: node_id }) <==> #[trigger] nodes.contains(
            ForwardRecord { uuid, node_id },
        ) by {
        let identity = Identity { uuid, kind: 0, surrogate: node_id };
        let mapping = ForwardRecord { uuid, node_id };
        assert(nodes.contains(mapping) == key_order(nodes).contains(mapping));
        if records.contains(identity) {
            assert(left.contains(identity) || right.contains(identity));
            if right.contains(identity) {
                let j = choose|j: int| 0 <= j < right.len() && right[j] == identity;
                assert(false);
            }
            let j = choose|j: int| 0 <= j < left.len() && left[j] == identity;
            assert(key_order(nodes)[j] == mapping);
        }
        if key_order(nodes).contains(mapping) {
            let j = choose|j: int| 0 <= j < key_order(nodes).len() && key_order(nodes)[j] == mapping;
            assert(left[j] == identity);
            assert(left.contains(identity));
        }
    }
    assert forall|uuid: u128|
        records.contains(Identity { uuid, kind: 1, surrogate: 0 }) <==> #[trigger] edges.contains(
            UuidRecord { uuid },
        ) by {
        let identity = Identity { uuid, kind: 1, surrogate: 0 };
        let edge = UuidRecord { uuid };
        assert(edges.contains(edge) == key_order(edges).contains(edge));
        if records.contains(identity) {
            assert(left.contains(identity) || right.contains(identity));
            if left.contains(identity) {
                let j = choose|j: int| 0 <= j < left.len() && left[j] == identity;
                assert(false);
            }
            let j = choose|j: int| 0 <= j < right.len() && right[j] == identity;
            assert(key_order(edges)[j] == edge);
        }
        if key_order(edges).contains(edge) {
            let j = choose|j: int| 0 <= j < key_order(edges).len() && key_order(edges)[j] == edge;
            assert(right[j] == identity);
            assert(right.contains(identity));
        }
    }
    assert(all_valid(records));
    lemma_scan_packed(records);
}

proof fn lemma_one_run(runs: Seq<RunModel>, kind: UuidIndexKind, uuid: u128)
    requires
        runs.len() == 1,
    ensures
        membership(runs, kind, uuid) == state_in(runs[0].identity_records(), kind, uuid),
{
    reveal_with_fuel(membership, 2);
    assert(runs.last() == runs[0]);
}

/// A rebuilt index knows exactly the identities of the topology: each node
/// with its identifier, each edge, and nothing else.
pub proof fn lemma_rebuilt_answers(
    index: IndexModel,
    metrics: UuidIndexBuildMetrics,
    generation: u64,
    nodes: Seq<NodeRow>,
    edges: Seq<EdgeRow>,
    limits: UuidIndexBuildLimits,
    uuid: u128,
)
    requires
        rebuild_fault(nodes, edges, limits) is None,
        rebuilt(index, metrics, generation, nodes, edges, limits),
    ensures
        descriptors_valid(index.manifest()),
        forall|node_id: u64|
            live_surrogate(index.runs, uuid) == Some(node_id) <==> #[trigger] maps(
                nodes,
                uuid,
                node_id,
            ),
        is_live(index.runs, UuidIndexKind::Node, uuid) <==> exists|node_id: u64| #[trigger]
            maps(nodes, uuid, node_id),
        is_live(index.runs, UuidIndexKind::Edge, uuid) <==> links(edges, uuid),
{
    let run = index.runs[0];
    let mappings = node_mappings(nodes);
    let uuids = edge_uuids(edges);
    let records = choose|records: Seq<Identity>| #[trigger]
        indexes(run, generation, mappings, uuids, records);
    lemma_run_records(run, generation, mappings, uuids, records);
    lemma_state_in_ordered(records, UuidIndexKind::Node, uuid);
    lemma_state_in_ordered(records, UuidIndexKind::Edge, uuid);
    assert(index.runs.last() == run);
    assert(index.runs.drop_last() =~= Seq::<RunModel>::empty());
    assert(index.manifest().runs[0] == run.run);
    lemma_one_run(index.runs, UuidIndexKind::Node, uuid);
    lemma_one_run(index.runs, UuidIndexKind::Edge, uuid);
    assert forall|node_id: u64|
        live_surrogate(index.runs, uuid) == Some(node_id) <==> #[trigger] maps(
            nodes,
            uuid,
            node_id,
        ) by {
        let identity = Identity { uuid, kind: 0, surrogate: node_id };
        assert(records.contains(identity) <==> mappings.contains(ForwardRecord { uuid, node_id }));
        if records.contains(identity) {
            let i = choose|i: int| 0 <= i < records.len() && records[i] == identity;
            assert(speaks_of(records[i], UuidIndexKind::Node, uuid));
        }
        if live_surrogate(index.runs, uuid) == Some(node_id) {
            let i = choose|i: int|
                0 <= i < records.len() && speaks_of(#[trigger] records[i], UuidIndexKind::Node, uuid);
            assert(records[i] == identity);
            assert(records.contains(identity));
        }
    }
    if is_live(index.runs, UuidIndexKind::Node, uuid) {
        let node_id = live_surrogate(index.runs, uuid)->0;
        assert(maps(nodes, uuid, node_id));
    }
    let edge = Identity { uuid, kind: 1, surrogate: 0 };
    assert(records.contains(edge) <==> uuids.contains(UuidRecord { uuid }));
    if records.contains(edge) {
        let i = choose|i: int| 0 <= i < records.len() && records[i] == edge;
        assert(speaks_of(records[i], UuidIndexKind::Edge, uuid));
    }
    if is_live(index.runs, UuidIndexKind::Edge, uuid) {
        let i = choose|i: int|
            0 <= i < records.len() && speaks_of(#[trigger] records[i], UuidIndexKind::Edge, uuid);
        assert(records[i] == edge);
        assert(records.contains(edge));
    }
}

} // verus!
