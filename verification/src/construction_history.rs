//! What a constructed index says of a UUID.
use vstd::prelude::*;

use crate::construction::{
    carry_chain, carry_step, carry_step_at, CarryModel, ConstructionIndexEncoding, delta_run,
    empty_base, encodes, parent_runs, row_fault, row_identities, row_identity, stream_canonical,
    stream_rows, stream_start,
};
use crate::framing::{Framed, lemma_scan_packed};
use crate::history::{
    apart, decided, joins, knows, lemma_decided_once, lemma_decided_reordered,
    lemma_membership_decided, lemma_pair_members, lemma_pushed_apart, lemma_pushed_decided,
    lemma_replaced_all_decided, lemma_replaced_apart, lemma_replaced_authentic,
    lemma_valid_chronological, replaces,
};
use crate::identity_codec::Identity;
use crate::keyed::{is_union, lemma_multiset_contains, ordered, share_key};
use crate::membership::IndexModel;
use crate::probing::{
    all_authentic, IdentityState, lemma_state_in_ordered, membership, speaks_of, UuidIndexKind,
};
use crate::records::NodeSurrogate;
use crate::runs::{descriptors_valid, level_pair, members, RunModel};

verus! {

proof fn lemma_union_known(
    merged: RunModel,
    older: RunModel,
    newer: RunModel,
    kind: UuidIndexKind,
    uuid: u128,
)
    requires
        ordered(merged.identity_records()),
        ordered(older.identity_records()),
        ordered(newer.identity_records()),
        is_union(merged.identity_records(), older.identity_records(), newer.identity_records()),
        !share_key(older.identity_records(), newer.identity_records()),
    ensures
        knows(merged, kind, uuid) == if knows(newer, kind, uuid) is Some {
            knows(newer, kind, uuid)
        } else {
            knows(older, kind, uuid)
        },
{
    let m = merged.identity_records();
    let o = older.identity_records();
    let n = newer.identity_records();
    lemma_state_in_ordered(m, kind, uuid);
    lemma_state_in_ordered(o, kind, uuid);
    lemma_state_in_ordered(n, kind, uuid);
    if knows(newer, kind, uuid) is Some {
        let i = choose|i: int| 0 <= i < n.len() && speaks_of(#[trigger] n[i], kind, uuid);
        assert(n.contains(n[i]));
        assert(m.contains(n[i]));
        let k = choose|k: int| 0 <= k < m.len() && m[k] == n[i];
        assert(speaks_of(m[k], kind, uuid));
    } else if knows(older, kind, uuid) is Some {
        let i = choose|i: int| 0 <= i < o.len() && speaks_of(#[trigger] o[i], kind, uuid);
        assert(o.contains(o[i]));
        assert(m.contains(o[i]));
        let k = choose|k: int| 0 <= k < m.len() && m[k] == o[i];
        assert(speaks_of(m[k], kind, uuid));
    } else {
        assert forall|k: int| 0 <= k < m.len() implies !speaks_of(#[trigger] m[k], kind, uuid) by {
            assert(m.contains(m[k]));
            if n.contains(m[k]) {
                let j = choose|j: int| 0 <= j < n.len() && n[j] == m[k];
                assert(!speaks_of(n[j], kind, uuid));
            } else {
                let j = choose|j: int| 0 <= j < o.len() && o[j] == m[k];
                assert(!speaks_of(o[j], kind, uuid));
            }
        }
    }
}

/// A run that unites two runs without a common UUID joins them.
pub proof fn lemma_union_joins(merged: RunModel, older: RunModel, newer: RunModel)
    requires
        ordered(merged.identity_records()),
        ordered(older.identity_records()),
        ordered(newer.identity_records()),
        is_union(merged.identity_records(), older.identity_records(), newer.identity_records()),
        !share_key(older.identity_records(), newer.identity_records()),
    ensures
        joins(merged, older, newer),
{
    assert forall|kind: UuidIndexKind, uuid: u128| #[trigger] knows(merged, kind, uuid) == if knows(
        newer,
        kind,
        uuid,
    ) is Some {
        knows(newer, kind, uuid)
    } else {
        knows(older, kind, uuid)
    } by {
        lemma_union_known(merged, older, newer, kind, uuid);
    }
}

proof fn lemma_carry_replaces(before: CarryModel, after: CarryModel, level: u8, generation: u64)
    requires
        carry_step(before, after, level, generation),
        members(before.runs, level).len() >= 2,
    ensures
        ({
            let at = members(before.runs, level);
            let (older, newer) = level_pair(before.runs, level);
            &&& replaces(before.runs, after.runs, at[0], at[1], older, newer)
            &&& after.runs.last().authentic()
        }),
{
    lemma_pair_members(before.runs, level);
    let (older, newer) = level_pair(before.runs, level);
    lemma_union_joins(after.runs.last(), older, newer);
}

proof fn lemma_carry_kept(before: CarryModel, after: CarryModel, level: u8, generation: u64)
    requires
        carry_step(before, after, level, generation),
        apart(before.runs),
        all_authentic(before.runs),
    ensures
        apart(after.runs),
        all_authentic(after.runs),
        forall|kind: UuidIndexKind, uuid: u128, state: Option<IdentityState>| #[trigger]
            decided(before.runs, kind, uuid, state) ==> decided(after.runs, kind, uuid, state),
{
    if members(before.runs, level).len() >= 2 {
        let at = members(before.runs, level);
        let (older, newer) = level_pair(before.runs, level);
        lemma_carry_replaces(before, after, level, generation);
        assert(apart(after.runs)) by {
            lemma_replaced_apart(before.runs, after.runs, at[0], at[1], older, newer);
        }
        assert(all_authentic(after.runs)) by {
            lemma_replaced_authentic(before.runs, after.runs, at[0], at[1]);
        }
        lemma_replaced_all_decided(before.runs, after.runs, at[0], at[1], older, newer);
    }
}

proof fn lemma_carry_chain_kept(states: Seq<CarryModel>, generation: u64, n: int)
    requires
        carry_chain(states, generation),
        apart(states[0].runs),
        all_authentic(states[0].runs),
        0 <= n < states.len(),
    ensures
        apart(states[n].runs),
        all_authentic(states[n].runs),
        forall|kind: UuidIndexKind, uuid: u128, state: Option<IdentityState>| #[trigger]
            decided(states[0].runs, kind, uuid, state) ==> decided(
                states[n].runs,
                kind,
                uuid,
                state,
            ),
    decreases n,
{
    if n > 0 {
        lemma_carry_chain_kept(states, generation, n - 1);
        assert(carry_step_at(states, n - 1, generation));
        lemma_carry_kept(states[n - 1], states[n], (n - 1) as u8, generation);
        assert forall|kind: UuidIndexKind, uuid: u128, state: Option<IdentityState>| #[trigger]
            decided(states[0].runs, kind, uuid, state) implies decided(
            states[n].runs,
            kind,
            uuid,
            state,
        ) by {
            assert(decided(states[n - 1].runs, kind, uuid, state));
        }
    }
}

proof fn lemma_row_records(run: RunModel, input: Seq<u8>, surrogates: Seq<NodeSurrogate>, generation: u64)
    requires
        stream_canonical(input),
        delta_run(run, row_identities(stream_rows(input)), surrogates, generation),
    ensures
        run.identity_records() == row_identities(stream_rows(input)),
        run.authentic(),
{
    let rows = stream_rows(input);
    let identities = row_identities(rows);
    assert forall|i: int| 0 <= i < identities.len() implies (#[trigger] identities[i]).valid() by {
        assert(row_fault(rows, i) is None);
    }
    lemma_scan_packed(identities);
}

/// Whether a constructed index may have this parent.
pub open spec fn parental(parent: Option<IndexModel>) -> bool {
    parent matches Some(index) ==> descriptors_valid(index.manifest()) && all_authentic(index.runs)
}

/// Where a carry starts from.
spec fn rests_on(start: CarryModel, parent: Option<IndexModel>, generation: u64) -> bool {
    let runs = start.runs.drop_last();
    &&& start.runs.len() > 0
    &&& apart(runs)
    &&& all_authentic(runs)
    &&& forall|i: int|
        0 <= i < runs.len() ==> (#[trigger] runs[i]).run.last_generation < generation
    &&& forall|kind: UuidIndexKind, uuid: u128|
        decided(runs, kind, uuid, #[trigger] membership(parent_runs(parent), kind, uuid))
}

proof fn lemma_parent_rests(
    start: CarryModel,
    index: IndexModel,
    generation: u64,
)
    requires
        start.runs.len() > 0,
        start.runs.drop_last() == index.runs,
        descriptors_valid(index.manifest()),
        all_authentic(index.runs),
        index.current_generation < generation,
    ensures
        rests_on(start, Some(index), generation),
{
    lemma_valid_chronological(index);
    let runs = start.runs.drop_last();
    assert forall|kind: UuidIndexKind, uuid: u128| decided(
        runs,
        kind,
        uuid,
        #[trigger] membership(parent_runs(Some(index)), kind, uuid),
    ) by {
        lemma_membership_decided(index.runs, kind, uuid);
    }
}

proof fn lemma_base_rests(start: CarryModel, generation: u64)
    requires
        start.runs.len() == 2,
        empty_base(start.runs[0]),
        0 < generation,
    ensures
        rests_on(start, None, generation),
{
    let runs = start.runs.drop_last();
    let base = start.runs[0];
    assert(runs =~= seq![base]);
    assert(base.identity_records() =~= Seq::<Identity>::empty());
    assert forall|kind: UuidIndexKind, uuid: u128| decided(
        runs,
        kind,
        uuid,
        #[trigger] membership(parent_runs(None), kind, uuid),
    ) by {
        assert(knows(base, kind, uuid) is None);
        assert forall|run: RunModel| #[trigger] runs.contains(run) implies knows(
            run,
            kind,
            uuid,
        ) is None by {
            assert(run == base);
        }
    }
}

proof fn lemma_stream_rests(
    start: CarryModel,
    input: Seq<u8>,
    generation: u64,
    parent_generation: u64,
    parent: Option<IndexModel>,
)
    requires
        stream_start(start, input, generation, parent_generation, parent),
        stream_canonical(input),
        parental(parent),
        parent is Some <==> parent_generation != 0,
        parent matches Some(index) ==> index.current_generation == parent_generation,
        parent_generation < generation,
    ensures
        rests_on(start, parent, generation),
        start.runs.last().identity_records() == row_identities(stream_rows(input)),
        start.runs.last().authentic(),
        start.runs.last().run.first_generation == generation,
        start.runs.last().run.last_generation == generation,
{
    let run = start.runs.last();
    lemma_row_records(
        run,
        input,
        crate::construction::row_surrogates(stream_rows(input)),
        generation,
    );
    match parent {
        Some(index) => {
            assert(start.runs.drop_last() =~= index.runs);
            lemma_parent_rests(start, index, generation);
        },
        None => {
            let base = start.runs[start.runs.len() - 2];
            assert(start.runs =~= seq![base, run]);
            lemma_base_rests(start, generation);
        },
    }
}

/// Whether a stream speaks of a UUID in a domain.
pub open spec fn streamed(input: Seq<u8>, kind: UuidIndexKind, uuid: u128) -> bool {
    exists|i: int|
        0 <= i < stream_rows(input).len() && speaks_of(
            row_identity(#[trigger] stream_rows(input)[i]),
            kind,
            uuid,
        )
}

/// What an index says of a UUID once a stream is on top of it.
pub open spec fn constructed(
    input: Seq<u8>,
    kind: UuidIndexKind,
    uuid: u128,
    before: Option<IdentityState>,
    after: Option<IdentityState>,
) -> bool {
    &&& forall|i: int|
        0 <= i < stream_rows(input).len() && speaks_of(
            row_identity(#[trigger] stream_rows(input)[i]),
            kind,
            uuid,
        ) ==> after == Some(
            IdentityState {
                present: true,
                surrogate: row_identity(stream_rows(input)[i]).surrogate,
            },
        )
    &&& !streamed(input, kind, uuid) ==> after == before
}

proof fn lemma_stream_known(
    run: RunModel,
    input: Seq<u8>,
    kind: UuidIndexKind,
    uuid: u128,
)
    requires
        stream_canonical(input),
        run.identity_records() == row_identities(stream_rows(input)),
        run.authentic(),
    ensures
        !streamed(input, kind, uuid) ==> knows(run, kind, uuid) is None,
        forall|i: int|
            0 <= i < stream_rows(input).len() && speaks_of(
                row_identity(#[trigger] stream_rows(input)[i]),
                kind,
                uuid,
            ) ==> knows(run, kind, uuid) == Some(
                IdentityState {
                    present: true,
                    surrogate: row_identity(stream_rows(input)[i]).surrogate,
                },
            ),
{
    let rows = stream_rows(input);
    let records = run.identity_records();
    lemma_state_in_ordered(records, kind, uuid);
    assert forall|i: int|
        0 <= i < rows.len() && speaks_of(
            row_identity(#[trigger] rows[i]),
            kind,
            uuid,
        ) implies knows(run, kind, uuid) == Some(
        IdentityState { present: true, surrogate: row_identity(rows[i]).surrogate },
    ) by {
        assert(records[i] == row_identity(rows[i]));
        assert(row_fault(rows, i) is None);
        assert(speaks_of(records[i], kind, uuid));
    }
    if knows(run, kind, uuid) is Some {
        let i = choose|i: int| 0 <= i < records.len() && speaks_of(#[trigger] records[i], kind, uuid);
        assert(records[i] == row_identity(rows[i]));
    }
}

proof fn lemma_carry_started(
    start: CarryModel,
    parent: Option<IndexModel>,
    generation: u64,
    kind: UuidIndexKind,
    uuid: u128,
)
    requires
        rests_on(start, parent, generation),
        start.runs.last().authentic(),
        start.runs.last().run.first_generation == generation,
        start.runs.last().run.last_generation == generation,
    ensures
        apart(start.runs),
        all_authentic(start.runs),
        decided(
            start.runs,
            kind,
            uuid,
            if knows(start.runs.last(), kind, uuid) is Some {
                knows(start.runs.last(), kind, uuid)
            } else {
                membership(parent_runs(parent), kind, uuid)
            },
        ),
{
    let runs = start.runs.drop_last();
    let run = start.runs.last();
    assert(start.runs =~= runs.push(run));
    lemma_pushed_apart(runs, run);
    assert forall|i: int| 0 <= i < start.runs.len() implies (
    #[trigger] start.runs[i]).authentic() by {
        if i < runs.len() {
            assert(runs[i].authentic());
        }
    }
    let state = membership(parent_runs(parent), kind, uuid);
    assert(decided(runs, kind, uuid, state));
    assert forall|i: int| 0 <= i < runs.len() implies (#[trigger] runs[i]).run.first_generation
        <= run.run.first_generation by {
        assert(runs[i].run.first_generation <= runs[i].run.last_generation);
    }
    lemma_pushed_decided(runs, run, kind, uuid, state);
}

/// A constructed index says of every UUID of its stream what the stream says,
/// and of every other UUID what its parent says, whatever runs are carried.
pub proof fn lemma_construction_read_back(
    encoding: ConstructionIndexEncoding,
    states: Seq<CarryModel>,
    input: Seq<u8>,
    generation: u64,
    parent_generation: u64,
    parent: Option<IndexModel>,
    live_nodes: u64,
    live_edges: u64,
    cancelled: Option<u64>,
    kind: UuidIndexKind,
    uuid: u128,
)
    requires
        encodes(
            encoding,
            states,
            input,
            generation,
            parent_generation,
            parent,
            live_nodes,
            live_edges,
            cancelled,
        ),
        stream_canonical(input),
        crate::construction::parent_fault(generation, parent_generation, parent) is None,
        parental(parent),
        parent_generation < u64::MAX,
    ensures
        parental(Some(encoding.index@)),
        constructed(
            input,
            kind,
            uuid,
            membership(parent_runs(parent), kind, uuid),
            membership(encoding.index@.runs, kind, uuid),
        ),
{
    let start = states[0];
    let run = start.runs.last();
    let done = states.last();
    let index = encoding.index@;
    lemma_stream_rests(start, input, generation, parent_generation, parent);
    lemma_carry_started(start, parent, generation, kind, uuid);
    lemma_carry_chain_kept(states, generation, states.len() - 1);
    lemma_stream_known(run, input, kind, uuid);
    lemma_multiset_contains(index.runs, done.runs);
    lemma_membership_decided(index.runs, kind, uuid);
    let after = membership(index.runs, kind, uuid);
    lemma_decided_reordered(index.runs, done.runs, kind, uuid, after);
    let state = if knows(run, kind, uuid) is Some {
        knows(run, kind, uuid)
    } else {
        membership(parent_runs(parent), kind, uuid)
    };
    assert(decided(done.runs, kind, uuid, state));
    lemma_decided_once(done.runs, kind, uuid, state, after);
    assert forall|i: int| 0 <= i < index.runs.len() implies (
    #[trigger] index.runs[i]).authentic() by {
        assert(index.runs.contains(index.runs[i]));
        assert(done.runs.contains(index.runs[i]));
        let k = choose|k: int| 0 <= k < done.runs.len() && done.runs[k] == index.runs[i];
        assert(done.runs[k].authentic());
    }
}

} // verus!
