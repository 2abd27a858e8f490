//! Membership probes: the newest run that knows a UUID decides.
use vstd::prelude::*;
use vstd::string::*;

use crate::bytes::{ascii, decimal, decimal_text, sat_add, saturating_sum};
use crate::error::{GfError, storage_err};
use crate::fences::{
    lemma_fence_selection, wanted_blocks, wanted_bytes, wanted_items, wanted_records,
    wanted_sound, WantedRecords,
};
use crate::identity_codec::Identity;
use crate::index_format::{authenticate_file, FORMAT_VERSION, Manifest, ManifestView, RunView};
use crate::keyed::{Keyed, lemma_multiset_contains, ordered, sort_by_key, sorted};
use crate::membership::UuidMembershipIndex;
use crate::records::NodeSurrogate;
use crate::runs::{descriptors_valid, OpenRun, run_models, RunModel, validate_run_descriptors};

verus! {

/// Identity domain.
#[derive(Clone, Copy, Debug, PartialEq, Eq, Structural)]
pub enum UuidIndexKind {
    /// Nodes.
    Node,
    /// Edges.
    Edge,
}

/// What a run knows of an identity.
#[derive(Clone, Copy, Debug, PartialEq, Eq, Structural)]
pub struct IdentityState {
    /// Live rather than deleted.
    pub present: bool,
    /// Surrogate in the record.
    pub surrogate: u64,
}

/// Work of one probe.
#[derive(Clone, Copy, Debug, PartialEq, Eq, Structural)]
pub struct UuidProbeMetrics {
    /// UUIDs in the request.
    pub requested: u64,
    /// Distinct UUIDs in the request.
    pub unique_requested: u64,
    /// Distinct UUIDs found live.
    pub found: u64,
    /// Runs looked into, newest first.
    pub runs_considered: u64,
    /// Identity blocks read.
    pub identity_blocks_read: u64,
    /// Identity bytes read.
    pub identity_bytes_read: u64,
    /// Surrogate blocks read.
    pub surrogate_blocks_read: u64,
    /// Surrogate bytes read.
    pub surrogate_bytes_read: u64,
    /// Seeks: one per block.
    pub file_seeks: u64,
    /// Seeks per record: always zero.
    pub per_record_seeks: u64,
}

/// Record kind of a live identity of a domain.
pub open spec fn live_kind(kind: UuidIndexKind) -> u8 {
    match kind {
        UuidIndexKind::Node => 0,
        UuidIndexKind::Edge => 1,
    }
}

/// Record kind of a deleted identity of a domain.
pub open spec fn deleted_kind(kind: UuidIndexKind) -> u8 {
    match kind {
        UuidIndexKind::Node => 2,
        UuidIndexKind::Edge => 3,
    }
}

/// Whether a record speaks of a UUID in a domain.
pub open spec fn speaks_of(record: Identity, kind: UuidIndexKind, uuid: u128) -> bool {
    record.uuid == uuid && (record.kind == live_kind(kind) || record.kind == deleted_kind(kind))
}

/// What records say of a UUID in a domain; the last one decides.
pub open spec fn state_in(
    records: Seq<Identity>,
    kind: UuidIndexKind,
    uuid: u128,
) -> Option<IdentityState>
    decreases records.len(),
{
    if records.len() == 0 {
        None
    } else if speaks_of(records.last(), kind, uuid) {
        Some(
            IdentityState {
                present: records.last().kind == live_kind(kind),
                surrogate: records.last().surrogate,
            },
        )
    } else {
        state_in(records.drop_last(), kind, uuid)
    }
}

/// What an index says of a UUID in a domain: the newest run that knows it
/// decides.
pub open spec fn membership(
    runs: Seq<RunModel>,
    kind: UuidIndexKind,
    uuid: u128,
) -> Option<IdentityState>
    decreases runs.len(),
{
    if runs.len() == 0 {
        None
    } else {
        match state_in(runs.last().identity_records(), kind, uuid) {
            Some(state) => Some(state),
            None => membership(runs.drop_last(), kind, uuid),
        }
    }
}

/// Whether a UUID is live in a domain.
pub open spec fn is_live(runs: Seq<RunModel>, kind: UuidIndexKind, uuid: u128) -> bool {
    membership(runs, kind, uuid) matches Some(state) && state.present
}

/// The surrogate of a live node.
pub open spec fn live_surrogate(runs: Seq<RunModel>, uuid: u128) -> Option<u64> {
    match membership(runs, UuidIndexKind::Node, uuid) {
        Some(state) => if state.present {
            Some(state.surrogate)
        } else {
            None
        },
        None => None,
    }
}

/// Whether every run is authentic.
pub open spec fn all_authentic(runs: Seq<RunModel>) -> bool {
    forall|i: int| 0 <= i < runs.len() ==> (#[trigger] runs[i]).authentic()
}

/// An ordered run says one thing of a UUID.
pub proof fn lemma_state_in_ordered(records: Seq<Identity>, kind: UuidIndexKind, uuid: u128)
    requires
        ordered(records),
    ensures
        state_in(records, kind, uuid) is None <==> forall|i: int|
            0 <= i < records.len() ==> !speaks_of(#[trigger] records[i], kind, uuid),
        forall|i: int|
            0 <= i < records.len() && speaks_of(#[trigger] records[i], kind, uuid) ==> state_in(
                records,
                kind,
                uuid,
            ) == Some(
                IdentityState {
                    present: records[i].kind == live_kind(kind),
                    surrogate: records[i].surrogate,
                },
            ),
    decreases records.len(),
{
    if records.len() > 0 {
        let rest = records.drop_last();
        lemma_state_in_ordered(rest, kind, uuid);
        assert forall|i: int|
            0 <= i < records.len() && speaks_of(
                #[trigger] records[i],
                kind,
                uuid,
            ) implies state_in(records, kind, uuid) == Some(
            IdentityState {
                present: records[i].kind == live_kind(kind),
                surrogate: records[i].surrogate,
            },
        ) by {
            if i < rest.len() {
                assert(records[i].key() < records[records.len() - 1].key());
                assert(rest[i] == records[i]);
            }
        }
        if state_in(records, kind, uuid) is None {
            assert forall|i: int| 0 <= i < records.len() implies !speaks_of(
                #[trigger] records[i],
                kind,
                uuid,
            ) by {
                if i < rest.len() {
                    assert(rest[i] == records[i]);
                }
            }
        } else if !speaks_of(records.last(), kind, uuid) {
            let i = choose|i: int| 0 <= i < rest.len() && speaks_of(#[trigger] rest[i], kind, uuid);
            assert(records[i] == rest[i]);
        } else {
            assert(speaks_of(records[records.len() - 1], kind, uuid));
        }
    }
}

/// What a run holds of a UUID is what the records of any selection that
/// keeps the UUID's own record say.
proof fn lemma_state_of_selection(
    selected: Seq<Identity>,
    all: Seq<Identity>,
    kind: UuidIndexKind,
    uuid: u128,
)
    requires
        ordered(all),
        forall|item: Identity| #[trigger] selected.contains(item) ==> all.contains(item),
        forall|item: Identity|
            #[trigger] all.contains(item) && item.uuid == uuid ==> selected.contains(item),
    ensures
        state_in(selected, kind, uuid) == state_in(all, kind, uuid),
    decreases selected.len(),
{
    lemma_state_in_ordered(all, kind, uuid);
    lemma_state_in_members(selected, kind, uuid);
    match state_in(selected, kind, uuid) {
        Some(state) => {
            let i = choose|i: int|
                0 <= i < selected.len() && speaks_of(#[trigger] selected[i], kind, uuid) && state
                    == (IdentityState {
                    present: selected[i].kind == live_kind(kind),
                    surrogate: selected[i].surrogate,
                });
            assert(selected.contains(selected[i]));
            let j = choose|j: int| 0 <= j < all.len() && all[j] == selected[i];
            assert(speaks_of(all[j], kind, uuid));
        },
        None => {
            assert forall|j: int| 0 <= j < all.len() implies !speaks_of(
                #[trigger] all[j],
                kind,
                uuid,
            ) by {
                if speaks_of(all[j], kind, uuid) {
                    assert(all.contains(all[j]));
                    let i = choose|i: int| 0 <= i < selected.len() && selected[i] == all[j];
                    assert(speaks_of(selected[i], kind, uuid));
                }
            }
        },
    }
}

proof fn lemma_state_in_members(records: Seq<Identity>, kind: UuidIndexKind, uuid: u128)
    ensures
        match state_in(records, kind, uuid) {
            Some(state) => exists|i: int|
                0 <= i < records.len() && speaks_of(#[trigger] records[i], kind, uuid) && state
                    == (IdentityState {
                    present: records[i].kind == live_kind(kind),
                    surrogate: records[i].surrogate,
                }),
            None => forall|i: int|
                0 <= i < records.len() ==> !speaks_of(#[trigger] records[i], kind, uuid),
        },
    decreases records.len(),
{
    if records.len() > 0 {
        let rest = records.drop_last();
        lemma_state_in_members(rest, kind, uuid);
        if speaks_of(records.last(), kind, uuid) {
            assert(speaks_of(records[records.len() - 1], kind, uuid));
        } else {
            match state_in(rest, kind, uuid) {
                Some(state) => {
                    let i = choose|i: int|
                        0 <= i < rest.len() && speaks_of(#[trigger] rest[i], kind, uuid) && state
                            == (IdentityState {
                            present: rest[i].kind == live_kind(kind),
                            surrogate: rest[i].surrogate,
                        });
                    assert(records[i] == rest[i]);
                },
                None => {
                    assert forall|i: int| 0 <= i < records.len() implies !speaks_of(
                        #[trigger] records[i],
                        kind,
                        uuid,
                    ) by {
                        if i < rest.len() {
                            assert(rest[i] == records[i]);
                        }
                    }
                },
            }
        }
    }
}

/// A wanted UUID as a keyed item.
#[derive(Clone, Copy, Debug, PartialEq, Eq, Structural)]
pub struct WantedUuid {
    /// The UUID.
    pub uuid: u128,
}

impl Keyed for WantedUuid {
    open spec fn key(self) -> int {
        self.uuid as int
    }

    fn before(&self, other: &Self) -> (less: bool) {
        self.uuid < other.uuid
    }
}

/// Numbers that strictly increase.
pub open spec fn increasing(values: Seq<u128>) -> bool {
    forall|i: int, j: int| 0 <= i < j < values.len() ==> #[trigger] values[i] < #[trigger] values[j]
}

/// The distinct values of a list, increasing.
pub fn distinct(values: &[u128]) -> (unique: Vec<u128>)
    ensures
        increasing(unique@),
        forall|value: u128| #[trigger] unique@.contains(value) <==> values@.contains(value),
        unique@.len() <= values@.len(),
{
    let mut items: Vec<WantedUuid> = Vec::new();
    let mut i: usize = 0;
    while i < values.len()
        invariant
            i <= values@.len(),
            items@.len() == i,
            forall|j: int| 0 <= j < i ==> (#[trigger] items@[j]).uuid == values@[j],
        decreases values.len() - i,
    {
        items.push(WantedUuid { uuid: values[i] });
        i = i + 1;
    }
    let in_order: Vec<WantedUuid> = sort_by_key(&items);
    proof {
        lemma_multiset_contains(in_order@, items@);
    }
    let mut unique: Vec<u128> = Vec::new();
    let mut k: usize = 0;
    while k < in_order.len()
        invariant
            k <= in_order@.len(),
            sorted(in_order@),
            unique@.len() <= k,
            increasing(unique@),
            k > 0 ==> unique@.len() > 0 && unique@.last() == in_order@[k - 1].uuid,
            k == 0 ==> unique@.len() == 0,
            forall|j: int| 0 <= j < k ==> unique@.contains((#[trigger] in_order@[j]).uuid),
            forall|j: int|
                0 <= j < unique@.len() ==> in_order@.contains(
                    (WantedUuid { uuid: #[trigger] unique@[j] }),
                ),
            forall|j: int, m: int|
                0 <= j < unique@.len() && k <= m < in_order@.len() ==> #[trigger] unique@[j] <= (
                #[trigger] in_order@[m]).uuid,
        decreases in_order.len() - k,
    {
        let value: u128 = in_order[k].uuid;
        let ghost before = unique@;
        if k == 0 || in_order[k - 1].uuid != value {
            proof {
                if k > 0 {
                    assert(in_order@[k - 1].key() <= in_order@[k as int].key());
                }
                assert(in_order@.contains(in_order@[k as int]));
            }
            unique.push(value);
            proof {
                crate::keyed::lemma_push_contains(before, value);
                assert forall|j: int| 0 <= j < unique@.len() implies in_order@.contains(
                    (WantedUuid { uuid: #[trigger] unique@[j] }),
                ) by {
                    if j == before.len() {
                        assert(in_order@[k as int] == (WantedUuid { uuid: unique@[j] }));
                    }
                }
                assert forall|j: int, m: int|
                    0 <= j < unique@.len() && k + 1 <= m
                        < in_order@.len() implies #[trigger] unique@[j] <= (
                #[trigger] in_order@[m]).uuid by {
                    assert(in_order@[k as int].key() <= in_order@[m].key());
                }
            }
        }
        k = k + 1;
    }
    proof {
        assert forall|value: u128| #[trigger] unique@.contains(value) <==> values@.contains(
            value,
        ) by {
            if unique@.contains(value) {
                let j = choose|j: int| 0 <= j < unique@.len() && unique@[j] == value;
                let item = WantedUuid { uuid: unique@[j] };
                assert(in_order@.contains(item));
                assert(items@.contains(item));
                let m = choose|m: int| 0 <= m < items@.len() && items@[m] == item;
                assert(values@[m] == value);
            }
            if values@.contains(value) {
                let m = choose|m: int| 0 <= m < values@.len() && values@[m] == value;
                assert(items@[m] == (WantedUuid { uuid: value }));
                assert(items@.contains(items@[m]));
                let j = choose|j: int| 0 <= j < in_order@.len() && in_order@[j] == items@[m];
                assert(unique@.contains(in_order@[j].uuid));
            }
        }
        let n = in_order@.len();
        vstd::seq_lib::to_multiset_len(in_order@);
        vstd::seq_lib::to_multiset_len(items@);
    }
    unique
}

/// The position of a value in an increasing list.
pub fn position(values: &Vec<u128>, value: u128) -> (at: Option<usize>)
    requires
        increasing(values@),
    ensures
        match at {
            Some(at) => at < values@.len() && values@[at as int] == value,
            None => !values@.contains(value),
        },
{
    let mut low: usize = 0;
    let mut high: usize = values.len();
    while low < high
        invariant
            low <= high <= values@.len(),
            increasing(values@),
            forall|i: int| 0 <= i < low ==> #[trigger] values@[i] < value,
            forall|i: int| high <= i < values@.len() ==> #[trigger] values@[i] > value,
        decreases high - low,
    {
        let middle: usize = low + (high - low) / 2;
        if values[middle] == value {
            return Some(middle);
        }
        if values[middle] < value {
            low = middle + 1;
        } else {
            high = middle;
        }
    }
    None
}

/// The values whose state is still open.
pub open spec fn unresolved(unique: Seq<u128>, states: Seq<Option<IdentityState>>) -> Seq<u128>
    decreases unique.len(),
{
    if unique.len() == 0 {
        Seq::empty()
    } else {
        let n = unique.len() - 1;
        let before = unresolved(unique.drop_last(), states);
        if states[n] is None {
            before.push(unique[n])
        } else {
            before
        }
    }
}

/// The states after looking into records: what was open takes what the
/// records say.
pub open spec fn resolved(
    unique: Seq<u128>,
    states: Seq<Option<IdentityState>>,
    records: Seq<Identity>,
    kind: UuidIndexKind,
) -> Seq<Option<IdentityState>> {
    Seq::new(
        unique.len(),
        |i: int|
            if states[i] is Some {
                states[i]
            } else {
                state_in(records, kind, unique[i])
            },
    )
}

/// The surrogate pairs of the nodes that turned out live among the first
/// `n`.
pub open spec fn new_pairs(
    unique: Seq<u128>,
    before: Seq<Option<IdentityState>>,
    after: Seq<Option<IdentityState>>,
    n: int,
) -> Seq<NodeSurrogate>
    decreases n,
{
    if n <= 0 {
        Seq::empty()
    } else {
        let rest = new_pairs(unique, before, after, n - 1);
        if newly_live(before, after, n - 1) {
            rest.push(
                NodeSurrogate { surrogate: after[n - 1]->0.surrogate, uuid: unique[n - 1] },
            )
        } else {
            rest
        }
    }
}

/// Whether the state at `i` was open and turned out live.
pub open spec fn newly_live(
    before: Seq<Option<IdentityState>>,
    after: Seq<Option<IdentityState>>,
    i: int,
) -> bool {
    before[i] is None && (after[i] matches Some(state) && state.present)
}

/// The surrogates of pairs.
pub open spec fn pair_keys(pairs: Seq<NodeSurrogate>) -> Seq<u128> {
    Seq::new(pairs.len(), |i: int| pairs[i].surrogate as u128)
}

/// Whether every pair is among the records.
pub open spec fn pairs_held(pairs: Seq<NodeSurrogate>, records: Seq<NodeSurrogate>) -> bool {
    forall|i: int| 0 <= i < pairs.len() ==> records.contains(#[trigger] pairs[i])
}

/// Metrics after one more run.
pub open spec fn probe_metrics(
    metrics: UuidProbeMetrics,
    live: nat,
    identity_blocks: u64,
    identity_bytes: u64,
    surrogate_blocks: u64,
    surrogate_bytes: u64,
) -> UuidProbeMetrics {
    UuidProbeMetrics {
        found: sat_add(metrics.found, live as u64),
        runs_considered: sat_add(metrics.runs_considered, 1),
        identity_blocks_read: sat_add(metrics.identity_blocks_read, identity_blocks),
        identity_bytes_read: sat_add(metrics.identity_bytes_read, identity_bytes),
        surrogate_blocks_read: sat_add(metrics.surrogate_blocks_read, surrogate_blocks),
        surrogate_bytes_read: sat_add(metrics.surrogate_bytes_read, surrogate_bytes),
        file_seeks: sat_add(sat_add(metrics.file_seeks, identity_blocks), surrogate_blocks),
        ..metrics
    }
}

/// Looking into one run: the states and metrics after it, or the failure of
/// a wanted block or of a surrogate pair.
pub open spec fn probe_run(
    run: RunModel,
    kind: UuidIndexKind,
    with_pairs: bool,
    unique: Seq<u128>,
    states: Seq<Option<IdentityState>>,
    metrics: UuidProbeMetrics,
) -> Result<(Seq<Option<IdentityState>>, UuidProbeMetrics), Seq<char>> {
    let keys = unresolved(unique, states);
    let blocks = run.run.identities.blocks;
    if !wanted_sound::<Identity>(run.identities, blocks, keys) {
        Err("UUID probe block authentication failed"@)
    } else {
        let after = resolved(
            unique,
            states,
            wanted_items::<Identity>(run.identities, blocks, keys),
            kind,
        );
        let pairs = new_pairs(unique, states, after, unique.len() as int);
        let pair_blocks = run.run.node_surrogates.blocks;
        if !with_pairs {
            Ok(
                (
                    after,
                    probe_metrics(
                        metrics,
                        pairs.len(),
                        wanted_blocks(0, blocks, keys),
                        wanted_bytes(0, blocks, keys),
                        0,
                        0,
                    ),
                ),
            )
        } else if !wanted_sound::<NodeSurrogate>(
            run.node_surrogates,
            pair_blocks,
            pair_keys(pairs),
        ) {
            Err("UUID probe block authentication failed"@)
        } else if !pairs_held(
            pairs,
            wanted_items::<NodeSurrogate>(run.node_surrogates, pair_blocks, pair_keys(pairs)),
        ) {
            Err("UUID and node surrogate pair is inconsistent"@)
        } else {
            Ok(
                (
                    after,
                    probe_metrics(
                        metrics,
                        pairs.len(),
                        wanted_blocks(0, blocks, keys),
                        wanted_bytes(0, blocks, keys),
                        wanted_blocks(0, pair_blocks, pair_keys(pairs)),
                        wanted_bytes(0, pair_blocks, pair_keys(pairs)),
                    ),
                ),
            )
        }
    }
}

/// Looking into runs, newest first, until nothing is open.
pub open spec fn probe_walk(
    runs: Seq<RunModel>,
    kind: UuidIndexKind,
    with_pairs: bool,
    unique: Seq<u128>,
    states: Seq<Option<IdentityState>>,
    metrics: UuidProbeMetrics,
) -> Result<(Seq<Option<IdentityState>>, UuidProbeMetrics), Seq<char>>
    decreases runs.len(),
{
    if runs.len() == 0 || unresolved(unique, states).len() == 0 {
        Ok((states, metrics))
    } else {
        match probe_run(runs.last(), kind, with_pairs, unique, states, metrics) {
            Err(message) => Err(message),
            Ok((after, work)) => probe_walk(
                runs.drop_last(),
                kind,
                with_pairs,
                unique,
                after,
                work,
            ),
        }
    }
}

/// Metrics of a probe that has not looked into any run.
pub open spec fn start_metrics(requested: u64, unique: u64) -> UuidProbeMetrics {
    UuidProbeMetrics {
        requested,
        unique_requested: unique,
        found: 0,
        runs_considered: 0,
        identity_blocks_read: 0,
        identity_bytes_read: 0,
        surrogate_blocks_read: 0,
        surrogate_bytes_read: 0,
        file_seeks: 0,
        per_record_seeks: 0,
    }
}

/// States before any run was looked into.
pub open spec fn open_states(n: nat) -> Seq<Option<IdentityState>> {
    Seq::new(n, |i: int| None::<IdentityState>)
}

fn open_keys(unique: &Vec<u128>, states: &Vec<Option<IdentityState>>) -> (keys: Vec<u128>)
    requires
        unique@.len() == states@.len(),
    ensures
        keys@ == unresolved(unique@, states@),
{
    let mut keys: Vec<u128> = Vec::new();
    let mut i: usize = 0;
    assert(unique@.take(0) =~= Seq::<u128>::empty());
    while i < unique.len()
        invariant
            i <= unique@.len() == states@.len(),
            keys@ == unresolved(unique@.take(i as int), states@),
        decreases unique.len() - i,
    {
        proof {
            assert(unique@.take(i + 1).drop_last() =~= unique@.take(i as int));
        }
        if states[i].is_none() {
            keys.push(unique[i]);
        }
        i = i + 1;
    }
    assert(unique@.take(i as int) =~= unique@);
    keys
}

fn resolve(
    unique: &Vec<u128>,
    states: &Vec<Option<IdentityState>>,
    records: &Vec<Identity>,
    kind: UuidIndexKind,
) -> (after: Vec<Option<IdentityState>>)
    requires
        increasing(unique@),
        unique@.len() == states@.len(),
    ensures
        after@ == resolved(unique@, states@, records@, kind),
{
    let live: u8 = match kind {
        UuidIndexKind::Node => 0,
        UuidIndexKind::Edge => 1,
    };
    let deleted: u8 = match kind {
        UuidIndexKind::Node => 2,
        UuidIndexKind::Edge => 3,
    };
    let mut after: Vec<Option<IdentityState>> = Vec::new();
    let mut i: usize = 0;
    while i < states.len()
        invariant
            i <= states@.len(),
            after@ == states@.take(i as int),
        decreases states.len() - i,
    {
        after.push(states[i]);
        i = i + 1;
        assert(after@ =~= states@.take(i as int));
    }
    assert(records@.take(0) =~= Seq::<Identity>::empty());
    assert(after@ =~= resolved(unique@, states@, records@.take(0), kind));
    let mut k: usize = 0;
    while k < records.len()
        invariant
            k <= records@.len(),
            increasing(unique@),
            unique@.len() == states@.len(),
            live == live_kind(kind),
            deleted == deleted_kind(kind),
            after@ == resolved(unique@, states@, records@.take(k as int), kind),
        decreases records.len() - k,
    {
        let record: Identity = records[k];
        let ghost before = after@;
        proof {
            assert(records@.take(k + 1).drop_last() =~= records@.take(k as int));
        }
        if record.kind == live || record.kind == deleted {
            match position(unique, record.uuid) {
                Some(at) => {
                    if states[at].is_none() {
                        let state = IdentityState {
                            present: record.kind == live,
                            surrogate: record.surrogate,
                        };
                        after.set(at, Some(state));
                    }
                    proof {
                        assert forall|j: int| 0 <= j < unique@.len() && j != at implies unique@[j]
                            != record.uuid by {
                            if j < at {
                                assert(unique@[j] < unique@[at as int]);
                            } else {
                                assert(unique@[at as int] < unique@[j]);
                            }
                        }
                    }
                },
                None => {
                    assert forall|j: int| 0 <= j < unique@.len() implies unique@[j]
                        != record.uuid by {
                        assert(unique@.contains(unique@[j]));
                    }
                },
            }
        }
        k = k + 1;
        assert(after@ =~= resolved(unique@, states@, records@.take(k as int), kind));
    }
    assert(records@.take(k as int) =~= records@);
    after
}

fn live_pairs(
    unique: &Vec<u128>,
    before: &Vec<Option<IdentityState>>,
    after: &Vec<Option<IdentityState>>,
) -> (pairs: Vec<NodeSurrogate>)
    requires
        unique@.len() == before@.len() == after@.len(),
    ensures
        pairs@ == new_pairs(unique@, before@, after@, unique@.len() as int),
        pairs@.len() <= unique@.len(),
{
    let mut pairs: Vec<NodeSurrogate> = Vec::new();
    let mut i: usize = 0;
    while i < unique.len()
        invariant
            i <= unique@.len() == before@.len(),
            unique@.len() == after@.len(),
            pairs@ == new_pairs(unique@, before@, after@, i as int),
            pairs@.len() <= i,
        decreases unique.len() - i,
    {
        if before[i].is_none() {
            match after[i] {
                Some(state) => {
                    if state.present {
                        pairs.push(
                            NodeSurrogate { surrogate: state.surrogate, uuid: unique[i] },
                        );
                    }
                },
                None => {},
            }
        }
        i = i + 1;
    }
    pairs
}

fn surrogate_keys(pairs: &Vec<NodeSurrogate>) -> (keys: Vec<u128>)
    ensures
        keys@ == pair_keys(pairs@),
{
    let mut keys: Vec<u128> = Vec::new();
    let mut i: usize = 0;
    while i < pairs.len()
        invariant
            i <= pairs@.len(),
            keys@.len() == i,
            forall|j: int| 0 <= j < i ==> #[trigger] keys@[j] == pairs@[j].surrogate,
        decreases pairs.len() - i,
    {
        keys.push(pairs[i].surrogate as u128);
        i = i + 1;
    }
    assert(keys@ =~= pair_keys(pairs@));
    keys
}

fn holds_pair(records: &Vec<NodeSurrogate>, pair: &NodeSurrogate) -> (yes: bool)
    ensures
        yes == records@.contains(*pair),
{
    let mut i: usize = 0;
    while i < records.len()
        invariant
            i <= records@.len(),
            forall|j: int| 0 <= j < i ==> #[trigger] records@[j] != *pair,
        decreases records.len() - i,
    {
        if records[i] == *pair {
            return true;
        }
        i = i + 1;
    }
    false
}

fn holds_pairs(records: &Vec<NodeSurrogate>, pairs: &Vec<NodeSurrogate>) -> (yes: bool)
    ensures
        yes == pairs_held(pairs@, records@),
{
    let mut i: usize = 0;
    while i < pairs.len()
        invariant
            i <= pairs@.len(),
            forall|j: int| 0 <= j < i ==> records@.contains(#[trigger] pairs@[j]),
        decreases pairs.len() - i,
    {
        if !holds_pair(records, &pairs[i]) {
            return false;
        }
        i = i + 1;
    }
    true
}

/// Look into one run.
fn batch_identity_states(
    run: &OpenRun,
    kind: UuidIndexKind,
    with_pairs: bool,
    unique: &Vec<u128>,
    states: &Vec<Option<IdentityState>>,
    metrics: UuidProbeMetrics,
) -> (outcome: Result<(Vec<Option<IdentityState>>, UuidProbeMetrics), GfError>)
    requires
        increasing(unique@),
        unique@.len() == states@.len(),
    ensures
        match probe_run(run@, kind, with_pairs, unique@, states@, metrics) {
            Ok((after, work)) => outcome matches Ok((got, done)) && got@ == after && done == work,
            Err(message) => outcome matches Err(error) && error.is_storage(message),
        },
{
    let keys: Vec<u128> = open_keys(unique, states);
    let wanted: WantedRecords<Identity> = match wanted_records::<Identity>(
        run.identities.as_slice(),
        &run.descriptor.identities,
        &keys,
        "UUID probe block authentication failed",
    ) {
        Ok(wanted) => wanted,
        Err(error) => {
            return Err(error);
        },
    };
    let after: Vec<Option<IdentityState>> = resolve(unique, states, &wanted.records, kind);
    let pairs: Vec<NodeSurrogate> = live_pairs(unique, states, &after);
    let mut surrogate_blocks: u64 = 0;
    let mut surrogate_bytes: u64 = 0;
    if with_pairs {
        let wanted_keys: Vec<u128> = surrogate_keys(&pairs);
        match wanted_records::<NodeSurrogate>(
            run.node_surrogates.as_slice(),
            &run.descriptor.node_surrogates,
            &wanted_keys,
            "UUID probe block authentication failed",
        ) {
            Ok(found) => {
                if !holds_pairs(&found.records, &pairs) {
                    return Err(storage_err("UUID and node surrogate pair is inconsistent"));
                }
                surrogate_blocks = found.blocks;
                surrogate_bytes = found.bytes;
            },
            Err(error) => {
                return Err(error);
            },
        }
    }
    let work = UuidProbeMetrics {
        requested: metrics.requested,
        unique_requested: metrics.unique_requested,
        found: saturating_sum(metrics.found, pairs.len() as u64),
        runs_considered: saturating_sum(metrics.runs_considered, 1),
        identity_blocks_read: saturating_sum(metrics.identity_blocks_read, wanted.blocks),
        identity_bytes_read: saturating_sum(metrics.identity_bytes_read, wanted.bytes),
        surrogate_blocks_read: saturating_sum(metrics.surrogate_blocks_read, surrogate_blocks),
        surrogate_bytes_read: saturating_sum(metrics.surrogate_bytes_read, surrogate_bytes),
        file_seeks: saturating_sum(
            saturating_sum(metrics.file_seeks, wanted.blocks),
            surrogate_blocks,
        ),
        per_record_seeks: metrics.per_record_seeks,
    };
    Ok((after, work))
}

/// Look into runs, newest first, until nothing is open.
fn walk_runs(
    runs: &Vec<OpenRun>,
    kind: UuidIndexKind,
    with_pairs: bool,
    unique: &Vec<u128>,
    requested: u64,
) -> (outcome: Result<(Vec<Option<IdentityState>>, UuidProbeMetrics), GfError>)
    requires
        increasing(unique@),
    ensures
        match probe_walk(
            run_models(runs@),
            kind,
            with_pairs,
            unique@,
            open_states(unique@.len()),
            start_metrics(requested, unique@.len() as u64),
        ) {
            Ok((after, work)) => outcome matches Ok((got, done)) && got@ == after && done == work
                && after.len() == unique@.len(),
            Err(message) => outcome matches Err(error) && error.is_storage(message),
        },
{
    let ghost models = run_models(runs@);
    let mut states: Vec<Option<IdentityState>> = Vec::new();
    let mut i: usize = 0;
    while i < unique.len()
        invariant
            i <= unique@.len(),
            states@ == open_states(i as nat),
        decreases unique.len() - i,
    {
        states.push(None);
        i = i + 1;
        assert(states@ =~= open_states(i as nat));
    }
    let mut metrics = UuidProbeMetrics {
        requested,
        unique_requested: unique.len() as u64,
        found: 0,
        runs_considered: 0,
        identity_blocks_read: 0,
        identity_bytes_read: 0,
        surrogate_blocks_read: 0,
        surrogate_bytes_read: 0,
        file_seeks: 0,
        per_record_seeks: 0,
    };
    let ghost whole = probe_walk(models, kind, with_pairs, unique@, states@, metrics);
    let mut left: usize = runs.len();
    assert(models.take(left as int) =~= models);
    while left > 0
        invariant
            left <= runs@.len(),
            models == run_models(runs@),
            increasing(unique@),
            states@.len() == unique@.len(),
            whole == probe_walk(
                models,
                kind,
                with_pairs,
                unique@,
                open_states(unique@.len()),
                start_metrics(requested, unique@.len() as u64),
            ),
            whole == probe_walk(
                models.take(left as int),
                kind,
                with_pairs,
                unique@,
                states@,
                metrics,
            ),
        ensures
            states@.len() == unique@.len(),
            whole == Ok::<(Seq<Option<IdentityState>>, UuidProbeMetrics), Seq<char>>(
                (states@, metrics),
            ),
        decreases left,
    {
        let open: Vec<u128> = open_keys(unique, &states);
        if open.len() == 0 {
            break;
        }
        proof {
            assert(models.take(left as int).last() == runs@[left - 1]@);
            assert(models.take(left as int).drop_last() =~= models.take(left - 1));
        }
        match batch_identity_states(&runs[left - 1], kind, with_pairs, unique, &states, metrics) {
            Ok((after, work)) => {
                states = after;
                metrics = work;
            },
            Err(error) => {
                return Err(error);
            },
        }
        left = left - 1;
    }
    Ok((states, metrics))
}

/// What the walk resolves is what the index says, run by run.
pub(crate) proof fn lemma_walk_is_membership(
    runs: Seq<RunModel>,
    kind: UuidIndexKind,
    with_pairs: bool,
    unique: Seq<u128>,
    states: Seq<Option<IdentityState>>,
    metrics: UuidProbeMetrics,
)
    requires
        all_authentic(runs),
        states.len() == unique.len(),
    ensures
        match probe_walk(runs, kind, with_pairs, unique, states, metrics) {
            Ok((after, _)) => after.len() == unique.len() && forall|i: int|
                0 <= i < unique.len() ==> #[trigger] after[i] == if states[i] is Some {
                    states[i]
                } else {
                    membership(runs, kind, unique[i])
                },
            Err(_) => with_pairs,
        },
    decreases runs.len(),
{
    let keys = unresolved(unique, states);
    lemma_unresolved(unique, states);
    if runs.len() == 0 || keys.len() == 0 {
        if keys.len() == 0 {
            assert forall|i: int| 0 <= i < unique.len() implies states[i] is Some by {
                if states[i] is None {
                    assert(keys.contains(unique[i]));
                }
            }
        }
    } else {
        let run = runs.last();
        let blocks = run.run.identities.blocks;
        assert(runs[runs.len() - 1].authentic());
        lemma_fence_selection::<Identity>(run.identities, run.run.identities, keys);
        let items = wanted_items::<Identity>(run.identities, blocks, keys);
        let after = resolved(unique, states, items, kind);
        let all = run.identity_records();
        assert forall|i: int| 0 <= i < unique.len() && states[i] is None implies #[trigger] after[i]
            == state_in(all, kind, unique[i]) by {
            assert(keys.contains(unique[i]));
            let k = choose|k: int| 0 <= k < keys.len() && keys[k] == unique[i];
            assert forall|item: Identity|
                #[trigger] all.contains(item) && item.uuid == unique[i] implies items.contains(
                item,
            ) by {
                assert(item.key() == keys[k]);
            }
            lemma_state_of_selection(items, all, kind, unique[i]);
        }
        match probe_run(run, kind, with_pairs, unique, states, metrics) {
            Ok((next, work)) => {
                let rest = runs.drop_last();
                assert forall|i: int| 0 <= i < rest.len() implies (
                #[trigger] rest[i]).authentic() by {
                    assert(runs[i].authentic());
                }
                lemma_walk_is_membership(rest, kind, with_pairs, unique, next, work);
            },
            Err(_) => {},
        }
    }
}

pub(crate) proof fn lemma_unresolved(unique: Seq<u128>, states: Seq<Option<IdentityState>>)
    requires
        unique.len() <= states.len(),
    ensures
        forall|i: int|
            0 <= i < unique.len() && states[i] is None ==> unresolved(unique, states).contains(
                #[trigger] unique[i],
            ),
    decreases unique.len(),
{
    if unique.len() > 0 {
        let rest = unique.drop_last();
        let n = unique.len() - 1;
        lemma_unresolved(rest, states);
        let before = unresolved(rest, states);
        let all = unresolved(unique, states);
        assert forall|i: int| 0 <= i < unique.len() && states[i] is None implies all.contains(
            #[trigger] unique[i],
        ) by {
            if i < n {
                assert(rest[i] == unique[i]);
                assert(before.contains(rest[i]));
                let k = choose|k: int| 0 <= k < before.len() && before[k] == unique[i];
                assert(all[k] == unique[i]);
            } else {
                assert(all[all.len() - 1] == unique[i]);
            }
        }
    }
}

/// The distinct wanted values, increasing: what a probe looks for.
pub open spec fn is_distinct(unique: Seq<u128>, requested: Seq<u128>) -> bool {
    increasing(unique) && forall|value: u128| #[trigger]
        unique.contains(value) <==> requested.contains(value)
}

/// Whether a walk over the distinct UUIDs ends with this error.
pub open spec fn probe_failed(
    runs: Seq<RunModel>,
    kind: UuidIndexKind,
    with_pairs: bool,
    requested: Seq<u128>,
    error: GfError,
) -> bool {
    exists|unique: Seq<u128>| #[trigger]
        is_distinct(unique, requested) && walk_fails(
            probe_walk(
                runs,
                kind,
                with_pairs,
                unique,
                open_states(unique.len()),
                start_metrics(requested.len() as u64, unique.len() as u64),
            ),
            error,
        )
}

/// Whether answers and metrics are those of a walk over the distinct UUIDs.
pub open spec fn probed(
    found: Seq<bool>,
    metrics: UuidProbeMetrics,
    runs: Seq<RunModel>,
    kind: UuidIndexKind,
    requested: Seq<u128>,
) -> bool {
    exists|unique: Seq<u128>, states: Seq<Option<IdentityState>>|
        is_distinct(unique, requested) && probe_walk(
            runs,
            kind,
            false,
            unique,
            open_states(unique.len()),
            start_metrics(requested.len() as u64, unique.len() as u64),
        ) == Ok::<(Seq<Option<IdentityState>>, UuidProbeMetrics), Seq<char>>((states, metrics))
            && #[trigger] answers_live(found, requested, unique, states)
}

/// Whether surrogates and metrics are those of a walk over the distinct UUIDs.
pub open spec fn looked_up(
    found: Seq<Option<u64>>,
    metrics: UuidProbeMetrics,
    runs: Seq<RunModel>,
    requested: Seq<u128>,
) -> bool {
    exists|unique: Seq<u128>, states: Seq<Option<IdentityState>>|
        is_distinct(unique, requested) && #[trigger] probe_walk(
            runs,
            UuidIndexKind::Node,
            true,
            unique,
            open_states(unique.len()),
            start_metrics(requested.len() as u64, unique.len() as u64),
        ) == Ok::<(Seq<Option<IdentityState>>, UuidProbeMetrics), Seq<char>>((states, metrics))
            && #[trigger] answers_surrogate(found, requested, unique, states)
}

impl UuidMembershipIndex {
    /// Topology generation of the index.
    pub fn topology_generation(&self) -> (generation: u64)
        ensures
            generation == self@.current_generation,
    {
        self.current_generation
    }

    /// Live identities of a domain.
    pub fn count(&self, kind: UuidIndexKind) -> (count: u64)
        ensures
            count == match kind {
                UuidIndexKind::Node => self@.live_node_count,
                UuidIndexKind::Edge => self@.live_edge_count,
            },
    {
        match kind {
            UuidIndexKind::Node => self.live_node_count,
            UuidIndexKind::Edge => self.live_edge_count,
        }
    }

    /// Probe a batch in caller order: which of the UUIDs are live.
    pub fn probe(&self, kind: UuidIndexKind, requested: &[u128]) -> (outcome: Result<
        (Vec<bool>, UuidProbeMetrics),
        GfError,
    >)
        ensures
            all_authentic(self@.runs) ==> outcome is Ok,
            outcome matches Ok((found, _)) ==> found@.len() == requested@.len() && (all_authentic(
                self@.runs,
            ) ==> forall|i: int|
                0 <= i < requested@.len() ==> #[trigger] found@[i] == is_live(
                    self@.runs,
                    kind,
                    requested@[i],
                )),
            outcome matches Ok((found, metrics)) ==> probed(
                found@,
                metrics,
                self@.runs,
                kind,
                requested@,
            ),
            outcome matches Err(error) ==> error.is_storage(
                "UUID probe block authentication failed"@,
            ) && probe_failed(self@.runs, kind, false, requested@, error),
    {
        let unique: Vec<u128> = distinct(requested);
        proof {
            if all_authentic(self@.runs) {
                lemma_walk_is_membership(
                    self@.runs,
                    kind,
                    false,
                    unique@,
                    open_states(unique@.len()),
                    start_metrics(requested@.len() as u64, unique@.len() as u64),
                );
            }
            lemma_walk_messages(
                self@.runs,
                kind,
                false,
                unique@,
                open_states(unique@.len()),
                start_metrics(requested@.len() as u64, unique@.len() as u64),
            );
        }
        assert(is_distinct(unique@, requested@));
        let (states, metrics): (Vec<Option<IdentityState>>, UuidProbeMetrics) = match walk_runs(
            &self.runs,
            kind,
            false,
            &unique,
            requested.len() as u64,
        ) {
            Ok(outcome) => outcome,
            Err(error) => {
                return Err(error);
            },
        };
        let mut found: Vec<bool> = Vec::new();
        let mut i: usize = 0;
        while i < requested.len()
            invariant
                i <= requested@.len(),
                found@.len() == i,
                increasing(unique@),
                states@.len() == unique@.len(),
                forall|value: u128| #[trigger]
                    unique@.contains(value) <==> requested@.contains(value),
                forall|j: int|
                    0 <= j < i ==> #[trigger] answer_at(
                        found@[j],
                        requested@[j],
                        unique@,
                        states@,
                    ),
            decreases requested.len() - i,
        {
            assert(requested@.contains(requested@[i as int]));
            let live: bool = match position(&unique, requested[i]) {
                Some(at) => match states[at] {
                    Some(state) => state.present,
                    None => false,
                },
                None => false,
            };
            proof {
                let at = choose|at: int| 0 <= at < unique@.len() && unique@[at]
                    == requested@[i as int];
                assert(answer_at(live, requested@[i as int], unique@, states@));
            }
            found.push(live);
            i = i + 1;
        }
        proof {
            assert(answers_live(found@, requested@, unique@, states@));
            if all_authentic(self@.runs) {
                assert forall|j: int| 0 <= j < requested@.len() implies #[trigger] found@[j]
                    == is_live(self@.runs, kind, requested@[j]) by {
                    assert(answer_at(found@[j], requested@[j], unique@, states@));
                    let at = choose|at: int|
                        0 <= at < unique@.len() && #[trigger] unique@[at] == requested@[j]
                            && found@[j] == (states@[at] matches Some(state) && state.present);
                    assert(states@[at] == membership(self@.runs, kind, unique@[at]));
                }
            }
            assert(is_distinct(unique@, requested@));
            assert(probe_walk(
                self@.runs,
                kind,
                false,
                unique@,
                open_states(unique@.len()),
                start_metrics(requested@.len() as u64, unique@.len() as u64),
            ) == Ok::<(Seq<Option<IdentityState>>, UuidProbeMetrics), Seq<char>>(
                (states@, metrics),
            ));
        }
        Ok((found, metrics))
    }

    /// Resolve node UUIDs to their surrogates in caller order; an absent or
    /// deleted UUID gives `None`.
    pub fn lookup_node_surrogates(&self, requested: &[u128]) -> (outcome: Result<
        (Vec<Option<u64>>, UuidProbeMetrics),
        GfError,
    >)
        ensures
            match outcome {
                Ok((found, metrics)) => {
                    &&& found@.len() == requested@.len()
                    &&& all_authentic(self@.runs) ==> forall|i: int|
                        0 <= i < requested@.len() ==> #[trigger] found@[i] == live_surrogate(
                            self@.runs,
                            requested@[i],
                        )
                    &&& looked_up(found@, metrics, self@.runs, requested@)
                },
                Err(error) => probe_failed(
                    self@.runs,
                    UuidIndexKind::Node,
                    true,
                    requested@,
                    error,
                ),
            },
    {
        let unique: Vec<u128> = distinct(requested);
        proof {
            if all_authentic(self@.runs) {
                lemma_walk_is_membership(
                    self@.runs,
                    UuidIndexKind::Node,
                    true,
                    unique@,
                    open_states(unique@.len()),
                    start_metrics(requested@.len() as u64, unique@.len() as u64),
                );
            }
        }
        assert(is_distinct(unique@, requested@));
        let (states, metrics): (Vec<Option<IdentityState>>, UuidProbeMetrics) = match walk_runs(
            &self.runs,
            UuidIndexKind::Node,
            true,
            &unique,
            requested.len() as u64,
        ) {
            Ok(outcome) => outcome,
            Err(error) => {
                return Err(error);
            },
        };
        let mut found: Vec<Option<u64>> = Vec::new();
        let mut i: usize = 0;
        while i < requested.len()
            invariant
                i <= requested@.len(),
                found@.len() == i,
                increasing(unique@),
                states@.len() == unique@.len(),
                forall|value: u128| #[trigger]
                    unique@.contains(value) <==> requested@.contains(value),
                forall|j: int|
                    0 <= j < i ==> #[trigger] surrogate_at(
                        found@[j],
                        requested@[j],
                        unique@,
                        states@,
                    ),
            decreases requested.len() - i,
        {
            assert(requested@.contains(requested@[i as int]));
            let surrogate: Option<u64> = match position(&unique, requested[i]) {
                Some(at) => match states[at] {
                    Some(state) => if state.present {
                        Some(state.surrogate)
                    } else {
                        None
                    },
                    None => None,
                },
                None => None,
            };
            proof {
                let at = choose|at: int| 0 <= at < unique@.len() && unique@[at]
                    == requested@[i as int];
                assert(surrogate_at(surrogate, requested@[i as int], unique@, states@));
            }
            found.push(surrogate);
            i = i + 1;
        }
        proof {
            assert(answers_surrogate(found@, requested@, unique@, states@));
            if all_authentic(self@.runs) {
                assert forall|j: int| 0 <= j < requested@.len() implies #[trigger] found@[j]
                    == live_surrogate(self@.runs, requested@[j]) by {
                    assert(surrogate_at(found@[j], requested@[j], unique@, states@));
                }
            }
        }
        Ok((found, metrics))
    }
}

/// Whether a walk ends with this error.
pub open spec fn walk_fails(
    outcome: Result<(Seq<Option<IdentityState>>, UuidProbeMetrics), Seq<char>>,
    error: GfError,
) -> bool {
    outcome matches Err(message) && error.is_storage(message)
}

/// Whether an answer is the state of its UUID.
pub open spec fn answer_at(
    found: bool,
    value: u128,
    unique: Seq<u128>,
    states: Seq<Option<IdentityState>>,
) -> bool {
    exists|at: int|
        0 <= at < unique.len() && #[trigger] unique[at] == value && found == (states[at] matches Some(
            state,
        ) && state.present)
}

/// Whether the answers are the states of the UUIDs, in caller order.
pub open spec fn answers_live(
    found: Seq<bool>,
    requested: Seq<u128>,
    unique: Seq<u128>,
    states: Seq<Option<IdentityState>>,
) -> bool {
    found.len() == requested.len() && forall|i: int|
        0 <= i < requested.len() ==> #[trigger] answer_at(found[i], requested[i], unique, states)
}

/// Whether an answer is the surrogate of its UUID, where that is live.
pub open spec fn surrogate_at(
    found: Option<u64>,
    value: u128,
    unique: Seq<u128>,
    states: Seq<Option<IdentityState>>,
) -> bool {
    exists|at: int|
        0 <= at < unique.len() && #[trigger] unique[at] == value && found == match states[at] {
            Some(state) => if state.present {
                Some(state.surrogate)
            } else {
                None
            },
            None => None,
        }
}

/// Whether the answers are the surrogates of the UUIDs, in caller order.
pub open spec fn answers_surrogate(
    found: Seq<Option<u64>>,
    requested: Seq<u128>,
    unique: Seq<u128>,
    states: Seq<Option<IdentityState>>,
) -> bool {
    found.len() == requested.len() && forall|i: int|
        0 <= i < requested.len() ==> #[trigger] surrogate_at(
            found[i],
            requested[i],
            unique,
            states,
        )
}

/// The answers of a probe are what the index says of each UUID, in caller order.
pub proof fn lemma_probe_answers(
    found: Seq<bool>,
    metrics: UuidProbeMetrics,
    runs: Seq<RunModel>,
    kind: UuidIndexKind,
    requested: Seq<u128>,
)
    requires
        all_authentic(runs),
        probed(found, metrics, runs, kind, requested),
    ensures
        found.len() == requested.len(),
        forall|i: int|
            0 <= i < requested.len() ==> #[trigger] found[i] == is_live(runs, kind, requested[i]),
{
    let (unique, states) = choose|unique: Seq<u128>, states: Seq<Option<IdentityState>>|
        is_distinct(unique, requested) && probe_walk(
            runs,
            kind,
            false,
            unique,
            open_states(unique.len()),
            start_metrics(requested.len() as u64, unique.len() as u64),
        ) == Ok::<(Seq<Option<IdentityState>>, UuidProbeMetrics), Seq<char>>((states, metrics))
            && #[trigger] answers_live(found, requested, unique, states);
    lemma_walk_is_membership(
        runs,
        kind,
        false,
        unique,
        open_states(unique.len()),
        start_metrics(requested.len() as u64, unique.len() as u64),
    );
    assert forall|i: int| 0 <= i < requested.len() implies #[trigger] found[i] == is_live(
        runs,
        kind,
        requested[i],
    ) by {
        assert(answer_at(found[i], requested[i], unique, states));
        let at = choose|at: int|
            0 <= at < unique.len() && #[trigger] unique[at] == requested[i] && found[i] == (
            states[at] matches Some(state) && state.present);
        assert(states[at] == membership(runs, kind, unique[at]));
    }
}

/// The answers of a lookup are the surrogates of the live nodes, in caller order.
pub proof fn lemma_lookup_answers(
    found: Seq<Option<u64>>,
    metrics: UuidProbeMetrics,
    runs: Seq<RunModel>,
    requested: Seq<u128>,
)
    requires
        all_authentic(runs),
        looked_up(found, metrics, runs, requested),
    ensures
        found.len() == requested.len(),
        forall|i: int|
            0 <= i < requested.len() ==> #[trigger] found[i] == live_surrogate(runs, requested[i]),
{
    let kind = UuidIndexKind::Node;
    let (unique, states) = choose|unique: Seq<u128>, states: Seq<Option<IdentityState>>|
        is_distinct(unique, requested) && #[trigger] probe_walk(
            runs,
            UuidIndexKind::Node,
            true,
            unique,
            open_states(unique.len()),
            start_metrics(requested.len() as u64, unique.len() as u64),
        ) == Ok::<(Seq<Option<IdentityState>>, UuidProbeMetrics), Seq<char>>((states, metrics))
            && #[trigger] answers_surrogate(found, requested, unique, states);
    lemma_walk_is_membership(
        runs,
        kind,
        true,
        unique,
        open_states(unique.len()),
        start_metrics(requested.len() as u64, unique.len() as u64),
    );
    assert forall|i: int| 0 <= i < requested.len() implies #[trigger] found[i] == live_surrogate(
        runs,
        requested[i],
    ) by {
        assert(surrogate_at(found[i], requested[i], unique, states));
        let at = choose|at: int|
            0 <= at < unique.len() && #[trigger] unique[at] == requested[i] && found[i]
                == match states[at] {
                Some(state) => if state.present {
                    Some(state.surrogate)
                } else {
                    None
                },
                None => None,
            };
        assert(states[at] == membership(runs, kind, unique[at]));
    }
}

proof fn lemma_walk_messages(
    runs: Seq<RunModel>,
    kind: UuidIndexKind,
    with_pairs: bool,
    unique: Seq<u128>,
    states: Seq<Option<IdentityState>>,
    metrics: UuidProbeMetrics,
)
    requires
        !with_pairs,
    ensures
        probe_walk(runs, kind, with_pairs, unique, states, metrics) matches Err(message)
            ==> message == "UUID probe block authentication failed"@,
    decreases runs.len(),
{
    if runs.len() > 0 && unresolved(unique, states).len() > 0 {
        match probe_run(runs.last(), kind, with_pairs, unique, states, metrics) {
            Ok((next, work)) => {
                lemma_walk_messages(runs.drop_last(), kind, with_pairs, unique, next, work);
            },
            Err(_) => {},
        }
    }
}

/// Number of records of a kind.
pub open spec fn kind_count(records: Seq<Identity>, kind: u8) -> nat
    decreases records.len(),
{
    if records.len() == 0 {
        0
    } else {
        kind_count(records.drop_last(), kind) + if records.last().kind == kind {
            1nat
        } else {
            0nat
        }
    }
}

/// Records of each kind: live nodes, live edges, deleted nodes, deleted
/// edges.
pub fn count_identity_states(records: &Vec<Identity>) -> (counts: (u64, u64, u64, u64))
    ensures
        counts.0 == kind_count(records@, 0),
        counts.1 == kind_count(records@, 1),
        counts.2 == kind_count(records@, 2),
        counts.3 == kind_count(records@, 3),
{
    let mut nodes: u64 = 0;
    let mut edges: u64 = 0;
    let mut deleted_nodes: u64 = 0;
    let mut deleted_edges: u64 = 0;
    let mut i: usize = 0;
    assert(records@.take(0) =~= Seq::<Identity>::empty());
    while i < records.len()
        invariant
            i <= records@.len(),
            nodes == kind_count(records@.take(i as int), 0),
            edges == kind_count(records@.take(i as int), 1),
            deleted_nodes == kind_count(records@.take(i as int), 2),
            deleted_edges == kind_count(records@.take(i as int), 3),
            nodes <= i,
            edges <= i,
            deleted_nodes <= i,
            deleted_edges <= i,
        decreases records.len() - i,
    {
        proof {
            assert(records@.take(i + 1).drop_last() =~= records@.take(i as int));
        }
        let kind: u8 = records[i].kind;
        if kind == 0 {
            nodes = nodes + 1;
        } else if kind == 1 {
            edges = edges + 1;
        } else if kind == 2 {
            deleted_nodes = deleted_nodes + 1;
        } else if kind == 3 {
            deleted_edges = deleted_edges + 1;
        }
        i = i + 1;
    }
    assert(records@.take(i as int) =~= records@);
    (nodes, edges, deleted_nodes, deleted_edges)
}

/// Whether a run holds as many records of each kind as its descriptor says,
/// and one surrogate record for each node record.
pub open spec fn contents_counted(run: RunModel) -> bool {
    let records = run.identity_records();
    &&& run.run.node_count == kind_count(records, 0)
    &&& run.run.edge_count == kind_count(records, 1)
    &&& run.run.deleted_node_count == kind_count(records, 2)
    &&& run.run.deleted_edge_count == kind_count(records, 3)
    &&& run.run.node_surrogates.count == kind_count(records, 0) + kind_count(records, 2)
}

/// What is wrong with the contents of a run.
pub open spec fn run_fault(run: RunModel) -> Option<Seq<char>> {
    if !run.authentic() {
        Some("UUID index file authentication failed"@)
    } else if !contents_counted(run) {
        Some("UUID index run contents differ from their descriptor"@)
    } else {
        None
    }
}

/// Authenticate the contents of a run.
pub fn validate_run_contents(run: &OpenRun) -> (checked: Result<(), GfError>)
    ensures
        match run_fault(run@) {
            Some(message) => checked matches Err(error) && error.is_storage(message),
            None => checked is Ok,
        },
{
    let records: Vec<Identity> = match authenticate_file::<Identity>(
        run.identities.as_slice(),
        &run.descriptor.identities,
        "UUID index file authentication failed",
    ) {
        Ok(records) => records,
        Err(error) => {
            return Err(error);
        },
    };
    match authenticate_file::<NodeSurrogate>(
        run.node_surrogates.as_slice(),
        &run.descriptor.node_surrogates,
        "UUID index file authentication failed",
    ) {
        Ok(_) => {},
        Err(error) => {
            return Err(error);
        },
    }
    let counts: (u64, u64, u64, u64) = count_identity_states(&records);
    let node_records: u64 = match counts.0.checked_add(counts.2) {
        Some(sum) => sum,
        None => {
            return Err(storage_err("UUID index run contents differ from their descriptor"));
        },
    };
    if counts.0 != run.descriptor.node_count || counts.1 != run.descriptor.edge_count || counts.2
        != run.descriptor.deleted_node_count || counts.3 != run.descriptor.deleted_edge_count
        || node_records != run.descriptor.node_surrogates.count {
        return Err(storage_err("UUID index run contents differ from their descriptor"));
    }
    Ok(())
}

/// The contents of the two files of a run.
#[derive(Debug, PartialEq, Eq)]
pub struct RunContents {
    /// Bytes of the identity file.
    pub identities: Vec<u8>,
    /// Bytes of the surrogate file.
    pub node_surrogates: Vec<u8>,
}

/// A run with its contents.
pub open spec fn joined(run: RunView, contents: RunContents) -> RunModel {
    RunModel {
        run,
        identities: contents.identities@,
        node_surrogates: contents.node_surrogates@,
    }
}

/// Why an index cannot be opened, if it cannot, apart from its runs.
pub open spec fn open_fault(
    manifest: ManifestView,
    generation: u64,
    contents: nat,
) -> Option<Seq<char>> {
    if manifest.format_version != FORMAT_VERSION {
        Some(
            "unsupported format version "@ + ascii(decimal_text(manifest.format_version as nat)),
        )
    } else if manifest.current_generation != generation {
        Some(
            "stale index generation "@ + ascii(
                decimal_text(manifest.current_generation as nat),
            ) + " (graph generation "@ + ascii(decimal_text(generation as nat)) + ")"@,
        )
    } else if !descriptors_valid(manifest) {
        Some("UUID index run descriptors are invalid"@)
    } else if contents != manifest.runs.len() {
        Some("UUID index run contents are missing"@)
    } else {
        None
    }
}

/// Whether the first faulty run fails with this error.
pub open spec fn runs_fail(runs: Seq<RunModel>, error: GfError) -> bool {
    exists|i: int|
        0 <= i < runs.len() && run_fails(runs, i, error) && forall|j: int|
            0 <= j < i ==> run_fault(runs[j]) is None
}

/// Whether an error is that of this run.
pub open spec fn run_fails(runs: Seq<RunModel>, i: int, error: GfError) -> bool {
    run_fault(runs[i]) matches Some(message) && error.is_storage(message)
}

/// Runs of a manifest with their contents.
pub open spec fn joined_runs(manifest: ManifestView, contents: Seq<RunContents>) -> Seq<RunModel> {
    Seq::new(manifest.runs.len(), |i: int| joined(manifest.runs[i], contents[i]))
}

/// Put the contents to the runs of a manifest.
pub fn join_runs(manifest: &Manifest, contents: Vec<RunContents>) -> (runs: Vec<OpenRun>)
    requires
        contents@.len() == manifest.runs@.len(),
    ensures
        run_models(runs@) == joined_runs(manifest@, contents@),
{
    let ghost given = contents@;
    let ghost models = joined_runs(manifest@, given);
    let mut contents: Vec<RunContents> = contents;
    let mut runs: Vec<OpenRun> = Vec::new();
    let mut i: usize = 0;
    assert(given.skip(0) =~= given);
    while i < manifest.runs.len()
        invariant
            i <= manifest.runs@.len(),
            given.len() == manifest.runs@.len(),
            contents@ == given.skip(i as int),
            models == joined_runs(manifest@, given),
            runs@.len() == i,
            forall|j: int| 0 <= j < i ==> (#[trigger] runs@[j])@ == models[j],
        decreases manifest.runs.len() - i,
    {
        let files: RunContents = contents.remove(0);
        assert(contents@ =~= given.skip(i + 1));
        let run = OpenRun {
            descriptor: manifest.runs[i].duplicate(),
            identities: files.identities,
            node_surrogates: files.node_surrogates,
        };
        assert(run@ == models[i as int]);
        runs.push(run);
        i = i + 1;
    }
    assert(run_models(runs@) =~= models);
    runs
}

/// Authenticate the contents of all runs.
pub fn validate_runs(runs: &Vec<OpenRun>) -> (checked: Result<(), GfError>)
    ensures
        match checked {
            Ok(()) => forall|i: int|
                0 <= i < runs@.len() ==> run_fault(#[trigger] run_models(runs@)[i]) is None,
            Err(error) => runs_fail(run_models(runs@), error),
        },
{
    let ghost models = run_models(runs@);
    let mut i: usize = 0;
    while i < runs.len()
        invariant
            i <= runs@.len(),
            models == run_models(runs@),
            forall|j: int| 0 <= j < i ==> run_fault(#[trigger] models[j]) is None,
        decreases runs.len() - i,
    {
        match validate_run_contents(&runs[i]) {
            Ok(()) => {},
            Err(error) => {
                assert(run_fails(models, i as int, error));
                return Err(error);
            },
        }
        assert(models[i as int] == runs@[i as int]@);
        i = i + 1;
    }
    Ok(())
}

impl UuidMembershipIndex {
    /// Open and fully authenticate an index: a manifest of the wanted
    /// generation together with the contents of its runs.
    pub fn open(manifest: &Manifest, generation: u64, contents: Vec<RunContents>) -> (index: Result<
        UuidMembershipIndex,
        GfError,
    >)
        ensures
            ({
                let fault = open_fault(manifest@, generation, contents@.len());
                let runs = joined_runs(manifest@, contents@);
                match index {
                    Ok(index) => {
                        &&& fault is None
                        &&& index@.runs == runs
                        &&& index@.manifest() == manifest@
                        &&& forall|i: int|
                            0 <= i < runs.len() ==> run_fault(#[trigger] runs[i]) is None
                        &&& all_authentic(index@.runs)
                    },
                    Err(error) => if fault is Some {
                        error.is_storage(fault->0)
                    } else {
                        runs_fail(runs, error)
                    },
                }
            }),
    {
        let ghost runs = joined_runs(manifest@, contents@);
        let ghost given = contents@;
        if manifest.format_version != FORMAT_VERSION {
            let mut message: String = "unsupported format version ".to_owned();
            message.append(decimal(manifest.format_version as u64).as_str());
            return Err(storage_err(message.as_str()));
        }
        if manifest.current_generation != generation {
            let mut message: String = "stale index generation ".to_owned();
            message.append(decimal(manifest.current_generation).as_str());
            message.append(" (graph generation ");
            message.append(decimal(generation).as_str());
            message.append(")");
            return Err(storage_err(message.as_str()));
        }
        match validate_run_descriptors(manifest) {
            Ok(()) => {},
            Err(error) => {
                return Err(error);
            },
        }
        if contents.len() != manifest.runs.len() {
            return Err(storage_err("UUID index run contents are missing"));
        }
        let open: Vec<OpenRun> = join_runs(manifest, contents);
        match validate_runs(&open) {
            Ok(()) => {},
            Err(error) => {
                return Err(error);
            },
        }
        let index = UuidMembershipIndex {
            format_version: manifest.format_version,
            base_generation: manifest.base_generation,
            current_generation: manifest.current_generation,
            live_node_count: manifest.live_node_count,
            live_edge_count: manifest.live_edge_count,
            runs: open,
        };
        proof {
            assert(index@.runs =~= runs);
            assert(index@.manifest().runs =~= manifest@.runs);
            assert forall|i: int| 0 <= i < index@.runs.len() implies (
            #[trigger] index@.runs[i]).authentic() by {
                assert(run_fault(runs[i]) is None);
            }
        }
        Ok(index)
    }
}

} // verus!
