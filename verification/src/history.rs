//! What an index says of a UUID through its history: the newest run that knows
//! it decides, whatever runs are merged.
use vstd::prelude::*;
use vstd::seq_lib::*;

use crate::construction::empty_base;
use crate::fences::{lemma_fence_selection, wanted_items};
use crate::framing::{Framed, lemma_pack_scanned, lemma_scan_packed};
use crate::identity_codec::Identity;
use crate::keyed::{
    has_key, is_overlay, Keyed, lemma_multiset_contains, lemma_push_contains, ordered, same_items,
};
use crate::membership::IndexModel;
use crate::probing::{
    all_authentic, IdentityState, is_live, lemma_state_in_ordered, live_kind, live_surrogate,
    membership, speaks_of, state_in, UuidIndexKind,
};
use crate::records::NodeSurrogate;
use crate::runs::{
    adjacent, descriptors_valid, lemma_members, level_pair, link_at, members, RunModel,
};
use crate::topology_delta::{
    collision_fault, deletes, delta_sorted, DeltaModel, edge_identities, identity_collision,
    node_identities, number_keys, plan_chain, plan_start, plan_step, plan_step_at, PlanModel,
    planned_run, PlannedDelta, planning, plans, start_index,
};

verus! {

/// What a run says of a UUID in a domain.
pub open spec fn knows(run: RunModel, kind: UuidIndexKind, uuid: u128) -> Option<IdentityState> {
    state_in(run.identity_records(), kind, uuid)
}

/// Whether a run holds a record.
pub open spec fn holds(run: RunModel, record: Identity) -> bool {
    run.identity_records().contains(record)
}

/// Whether one of some runs holds a record.
pub open spec fn held(runs: Seq<RunModel>, record: Identity) -> bool {
    exists|run: RunModel| #[trigger] runs.contains(run) && holds(run, record)
}

/// Whether the generations of the runs do not overlap.
pub open spec fn apart(runs: Seq<RunModel>) -> bool {
    &&& forall|i: int|
        0 <= i < runs.len() ==> (#[trigger] runs[i]).run.first_generation
            <= runs[i].run.last_generation
    &&& forall|i: int, j: int|
        0 <= i < runs.len() && 0 <= j < runs.len() && i != j ==> (
        #[trigger] runs[i]).run.last_generation < (#[trigger] runs[j]).run.first_generation
            || runs[j].run.last_generation < runs[i].run.first_generation
}

/// Whether every UUID is either that of a node or that of an edge.
pub open spec fn one_domain(runs: Seq<RunModel>) -> bool {
    forall|left: Identity, right: Identity|
        #![trigger held(runs, left), held(runs, right)]
        held(runs, left) && held(runs, right) && left.uuid == right.uuid ==> left.kind % 2
            == right.kind % 2
}

/// Whether runs make up a history: authentic, apart, and agreed on what each
/// UUID belongs to.
pub open spec fn sound(runs: Seq<RunModel>) -> bool {
    apart(runs) && one_domain(runs) && all_authentic(runs)
}

/// Whether a run is the newest of those that know a UUID.
pub open spec fn decides(
    runs: Seq<RunModel>,
    run: RunModel,
    kind: UuidIndexKind,
    uuid: u128,
) -> bool {
    &&& runs.contains(run)
    &&& knows(run, kind, uuid) is Some
    &&& forall|other: RunModel| #[trigger]
        runs.contains(other) && knows(other, kind, uuid) is Some ==> other.run.first_generation
            <= run.run.first_generation
}

/// Whether this is what the newest run that knows a UUID says of it.
pub open spec fn decided(
    runs: Seq<RunModel>,
    kind: UuidIndexKind,
    uuid: u128,
    state: Option<IdentityState>,
) -> bool {
    match state {
        None => forall|run: RunModel| #[trigger]
            runs.contains(run) ==> knows(run, kind, uuid) is None,
        Some(_) => exists|run: RunModel| #[trigger]
            decides(runs, run, kind, uuid) && knows(run, kind, uuid) == state,
    }
}

/// Whether the runs are in the order of their generations.
pub open spec fn chronological(runs: Seq<RunModel>) -> bool {
    forall|i: int, j: int|
        0 <= i < j < runs.len() ==> (#[trigger] runs[i]).run.first_generation <= (
        #[trigger] runs[j]).run.first_generation
}

/// What an index says is what the newest run says that knows the UUID.
pub proof fn lemma_membership_decided(runs: Seq<RunModel>, kind: UuidIndexKind, uuid: u128)
    requires
        chronological(runs),
    ensures
        decided(runs, kind, uuid, membership(runs, kind, uuid)),
    decreases runs.len(),
{
    if runs.len() > 0 {
        let front = runs.drop_last();
        let last = runs.last();
        assert(runs[runs.len() - 1] == last);
        assert forall|run: RunModel| #[trigger] runs.contains(run) implies run == last
            || front.contains(run) by {
            let i = choose|i: int| 0 <= i < runs.len() && runs[i] == run;
            if i < front.len() {
                assert(front[i] == run);
            }
        }
        if knows(last, kind, uuid) is Some {
            assert(runs.contains(last));
            assert forall|other: RunModel| #[trigger]
                runs.contains(other) && knows(other, kind, uuid) is Some implies
                other.run.first_generation <= last.run.first_generation by {
                let i = choose|i: int| 0 <= i < runs.len() && runs[i] == other;
                if i < runs.len() - 1 {
                    assert(runs[i].run.first_generation <= runs[runs.len()
                        - 1].run.first_generation);
                }
            }
            assert(decides(runs, last, kind, uuid));
        } else {
            lemma_membership_decided(front, kind, uuid);
            if let Some(state) = membership(front, kind, uuid) {
                let run = choose|run: RunModel| #[trigger]
                    decides(front, run, kind, uuid) && knows(run, kind, uuid) == Some(state);
                let i = choose|i: int| 0 <= i < front.len() && front[i] == run;
                assert(runs[i] == run);
                assert(decides(runs, run, kind, uuid));
            }
        }
    }
}

/// Runs that are apart decide a UUID in one way.
pub proof fn lemma_decided_once(
    runs: Seq<RunModel>,
    kind: UuidIndexKind,
    uuid: u128,
    left: Option<IdentityState>,
    right: Option<IdentityState>,
)
    requires
        apart(runs),
        decided(runs, kind, uuid, left),
        decided(runs, kind, uuid, right),
    ensures
        left == right,
{
    if left is Some && right is Some {
        let a = choose|run: RunModel| #[trigger]
            decides(runs, run, kind, uuid) && knows(run, kind, uuid) == left;
        let b = choose|run: RunModel| #[trigger]
            decides(runs, run, kind, uuid) && knows(run, kind, uuid) == right;
        let i = choose|i: int| 0 <= i < runs.len() && runs[i] == a;
        let j = choose|j: int| 0 <= j < runs.len() && runs[j] == b;
        assert(a.run.first_generation == b.run.first_generation);
        if i != j {
            assert(runs[i].run.last_generation < runs[j].run.first_generation
                || runs[j].run.last_generation < runs[i].run.first_generation);
        }
    } else if left is Some {
        let a = choose|run: RunModel| #[trigger]
            decides(runs, run, kind, uuid) && knows(run, kind, uuid) == left;
        assert(runs.contains(a));
    } else if right is Some {
        let b = choose|run: RunModel| #[trigger]
            decides(runs, run, kind, uuid) && knows(run, kind, uuid) == right;
        assert(runs.contains(b));
    }
}

/// The order of the runs does not matter to what they decide.
pub proof fn lemma_decided_reordered(
    runs: Seq<RunModel>,
    other: Seq<RunModel>,
    kind: UuidIndexKind,
    uuid: u128,
    state: Option<IdentityState>,
)
    requires
        same_items(runs, other),
        decided(runs, kind, uuid, state),
    ensures
        decided(other, kind, uuid, state),
{
    if let Some(_) = state {
        let run = choose|run: RunModel| #[trigger]
            decides(runs, run, kind, uuid) && knows(run, kind, uuid) == state;
        assert(runs.contains(run) == other.contains(run));
        assert forall|next: RunModel| #[trigger]
            other.contains(next) && knows(next, kind, uuid) is Some implies
            next.run.first_generation <= run.run.first_generation by {
            assert(runs.contains(next));
        }
        assert(decides(other, run, kind, uuid));
    } else {
        assert forall|run: RunModel| #[trigger] other.contains(run) implies knows(
            run,
            kind,
            uuid,
        ) is None by {
            assert(runs.contains(run));
        }
    }
}

/// Whether a run says of every UUID what the newer of two says, or else the
/// older, and holds no other records.
pub open spec fn joins(merged: RunModel, older: RunModel, newer: RunModel) -> bool {
    &&& forall|kind: UuidIndexKind, uuid: u128| #[trigger]
        knows(merged, kind, uuid) == if knows(newer, kind, uuid) is Some {
            knows(newer, kind, uuid)
        } else {
            knows(older, kind, uuid)
        }
    &&& forall|record: Identity| #[trigger]
        holds(merged, record) ==> holds(older, record) || holds(newer, record)
}

/// Where the runs of a level go when they are merged.
spec fn shifted(k: int, first: int, second: int) -> int {
    if k < first {
        k
    } else if k + 1 < second {
        k + 1
    } else {
        k + 2
    }
}

/// Two adjacent runs replaced by one that joins them.
pub open spec fn replaces(
    before: Seq<RunModel>,
    after: Seq<RunModel>,
    first: int,
    second: int,
    older: RunModel,
    newer: RunModel,
) -> bool {
    let merged = after.last();
    &&& 0 <= first < second < before.len()
    &&& after.len() > 0
    &&& after.drop_last() == before.remove(second).remove(first)
    &&& (older == before[first] && newer == before[second]) || (older == before[second] && newer
        == before[first])
    &&& older.run.first_generation <= newer.run.first_generation
    &&& adjacent(older.run, newer.run)
    &&& merged.run.first_generation == older.run.first_generation
    &&& merged.run.last_generation == newer.run.last_generation
    &&& joins(merged, older, newer)
}

proof fn lemma_left_over(before: Seq<RunModel>, after: Seq<RunModel>, first: int, second: int)
    requires
        0 <= first < second < before.len(),
        after.len() > 0,
        after.drop_last() == before.remove(second).remove(first),
    ensures
        after.len() == before.len() - 1,
        forall|k: int|
            0 <= k < after.len() - 1 ==> #[trigger] after[k] == before[shifted(k, first, second)]
                && 0 <= shifted(k, first, second) < before.len() && shifted(k, first, second)
                != first && shifted(k, first, second) != second,
{
    let one = before.remove(second);
    let rest = one.remove(first);
    before.remove_ensures(second);
    one.remove_ensures(first);
    assert forall|k: int| 0 <= k < after.len() - 1 implies #[trigger] after[k] == before[shifted(
        k,
        first,
        second,
    )] && 0 <= shifted(k, first, second) < before.len() && shifted(k, first, second) != first
        && shifted(k, first, second) != second by {
        assert(after.drop_last()[k] == after[k]);
        assert(rest[k] == before[shifted(k, first, second)]);
    }
}

pub(crate) proof fn lemma_replaced_apart(
    before: Seq<RunModel>,
    after: Seq<RunModel>,
    first: int,
    second: int,
    older: RunModel,
    newer: RunModel,
)
    requires
        apart(before),
        replaces(before, after, first, second, older, newer),
    ensures
        apart(after),
        older.run.last_generation + 1 == newer.run.first_generation,
{
    lemma_left_over(before, after, first, second);
    let merged = after.last();
    assert(before[first].run.last_generation < before[second].run.first_generation
        || before[second].run.last_generation < before[first].run.first_generation);
    assert forall|i: int, j: int|
        0 <= i < after.len() && 0 <= j < after.len() && i != j implies (
    #[trigger] after[i]).run.last_generation < (#[trigger] after[j]).run.first_generation
        || after[j].run.last_generation < after[i].run.first_generation by {
        let last = after.len() - 1;
        if i < last && j < last {
            let a = shifted(i, first, second);
            let b = shifted(j, first, second);
            assert(before[a] == after[i] && before[b] == after[j]);
        } else if i < last {
            let a = shifted(i, first, second);
            assert(before[a] == after[i]);
            assert(before[a].run.first_generation <= before[a].run.last_generation);
            assert(before[a].run.last_generation < before[first].run.first_generation
                || before[first].run.last_generation < before[a].run.first_generation);
            assert(before[a].run.last_generation < before[second].run.first_generation
                || before[second].run.last_generation < before[a].run.first_generation);
        } else if j < last {
            let b = shifted(j, first, second);
            assert(before[b] == after[j]);
            assert(before[b].run.first_generation <= before[b].run.last_generation);
            assert(before[b].run.last_generation < before[first].run.first_generation
                || before[first].run.last_generation < before[b].run.first_generation);
            assert(before[b].run.last_generation < before[second].run.first_generation
                || before[second].run.last_generation < before[b].run.first_generation);
        }
    }
    assert forall|i: int| 0 <= i < after.len() implies (#[trigger] after[i]).run.first_generation
        <= after[i].run.last_generation by {
        if i < after.len() - 1 {
            assert(before[shifted(i, first, second)].run.first_generation <= before[shifted(
                i,
                first,
                second,
            )].run.last_generation);
        }
    }
}

proof fn lemma_replaced_domain(
    before: Seq<RunModel>,
    after: Seq<RunModel>,
    first: int,
    second: int,
    older: RunModel,
    newer: RunModel,
)
    requires
        one_domain(before),
        replaces(before, after, first, second, older, newer),
    ensures
        one_domain(after),
{
    lemma_left_over(before, after, first, second);
    assert(before.contains(older)) by {
        assert(before[first] == older || before[second] == older);
    }
    assert(before.contains(newer)) by {
        assert(before[first] == newer || before[second] == newer);
    }
    assert forall|record: Identity| #[trigger] held(after, record) implies held(before, record) by {
        let run = choose|run: RunModel| #[trigger] after.contains(run) && holds(run, record);
        let k = choose|k: int| 0 <= k < after.len() && after[k] == run;
        if k < after.len() - 1 {
            assert(before[shifted(k, first, second)] == run);
            assert(before.contains(run));
        } else {
            assert(holds(after.last(), record));
        }
    }
    assert forall|left: Identity, right: Identity|
        #![trigger held(after, left), held(after, right)]
        held(after, left) && held(after, right) && left.uuid == right.uuid implies left.kind % 2
        == right.kind % 2 by {
        assert(held(before, left) && held(before, right));
    }
}

/// Merging adjacent runs changes nothing of what is decided.
pub proof fn lemma_replaced_decided(
    before: Seq<RunModel>,
    after: Seq<RunModel>,
    first: int,
    second: int,
    older: RunModel,
    newer: RunModel,
    kind: UuidIndexKind,
    uuid: u128,
    state: Option<IdentityState>,
)
    requires
        apart(before),
        replaces(before, after, first, second, older, newer),
        decided(before, kind, uuid, state),
    ensures
        decided(after, kind, uuid, state),
{
    lemma_left_over(before, after, first, second);
    lemma_replaced_apart(before, after, first, second, older, newer);
    let merged = after.last();
    let last = after.len() - 1;
    assert(after[last] == merged);
    assert(before.contains(older)) by {
        assert(before[first] == older || before[second] == older);
    }
    assert(before.contains(newer)) by {
        assert(before[first] == newer || before[second] == newer);
    }
    assert(knows(merged, kind, uuid) == if knows(newer, kind, uuid) is Some {
        knows(newer, kind, uuid)
    } else {
        knows(older, kind, uuid)
    });
    match state {
        None => {
            assert forall|run: RunModel| #[trigger] after.contains(run) implies knows(
                run,
                kind,
                uuid,
            ) is None by {
                let k = choose|k: int| 0 <= k < after.len() && after[k] == run;
                if k < last {
                    assert(before.contains(before[shifted(k, first, second)]));
                }
            }
        },
        Some(_) => {
            let run = choose|run: RunModel| #[trigger]
                decides(before, run, kind, uuid) && knows(run, kind, uuid) == state;
            let at = choose|i: int| 0 <= i < before.len() && before[i] == run;
            let next = if at == first || at == second {
                merged
            } else {
                run
            };
            if at != first && at != second {
                let k = if at < first {
                    at
                } else if at < second {
                    at - 1
                } else {
                    at - 2
                };
                assert(shifted(k, first, second) == at);
                assert(after[k] == run);
            }
            assert(after.contains(next));
            assert(knows(next, kind, uuid) == state);
            assert forall|other: RunModel| #[trigger]
                after.contains(other) && knows(other, kind, uuid) is Some implies
                other.run.first_generation <= next.run.first_generation by {
                let k = choose|k: int| 0 <= k < after.len() && after[k] == other;
                if k < last {
                    let m = shifted(k, first, second);
                    assert(before[m] == other);
                    assert(before.contains(other));
                    assert(before[m].run.first_generation <= before[m].run.last_generation);
                    assert(before[m].run.last_generation < before[first].run.first_generation
                        || before[first].run.last_generation < before[m].run.first_generation);
                    assert(before[m].run.last_generation < before[second].run.first_generation
                        || before[second].run.last_generation < before[m].run.first_generation);
                } else {
                    assert(other == merged);
                    assert(knows(newer, kind, uuid) is Some || knows(older, kind, uuid) is Some);
                }
            }
            assert(decides(after, next, kind, uuid));
        },
    }
}

proof fn lemma_known_kinds(run: RunModel, record: Identity)
    requires
        holds(run, record),
    ensures
        record.kind <= 3,
{
    lemma_pack_scanned::<Identity>(run.identities);
    let records = run.identity_records();
    let i = choose|i: int| 0 <= i < records.len() && records[i] == record;
    assert(records[i].valid());
}

/// Whether two runs agree on what each UUID belongs to.
pub open spec fn agree(left: RunModel, right: RunModel) -> bool {
    forall|a: Identity, b: Identity| #[trigger]
        holds(left, a) && #[trigger] holds(right, b) && a.uuid == b.uuid ==> a.kind % 2 == b.kind
            % 2
}

proof fn lemma_overlay_known(
    merged: RunModel,
    older: RunModel,
    newer: RunModel,
    kind: UuidIndexKind,
    uuid: u128,
)
    requires
        ordered(merged.identity_records()),
        ordered(older.identity_records()),
        ordered(newer.identity_records()),
        is_overlay(
            merged.identity_records(),
            older.identity_records(),
            newer.identity_records(),
        ),
        agree(older, newer),
    ensures
        knows(merged, kind, uuid) == if knows(newer, kind, uuid) is Some {
            knows(newer, kind, uuid)
        } else {
            knows(older, kind, uuid)
        },
{
    let m = merged.identity_records();
    let o = older.identity_records();
    let n = newer.identity_records();
    lemma_state_in_ordered(m, kind, uuid);
    lemma_state_in_ordered(o, kind, uuid);
    lemma_state_in_ordered(n, kind, uuid);
    if knows(newer, kind, uuid) is Some {
        let i = choose|i: int| 0 <= i < n.len() && speaks_of(#[trigger] n[i], kind, uuid);
        assert(n.contains(n[i]));
        assert(m.contains(n[i]));
        let k = choose|k: int| 0 <= k < m.len() && m[k] == n[i];
        assert(speaks_of(m[k], kind, uuid));
    } else if knows(older, kind, uuid) is Some {
        let i = choose|i: int| 0 <= i < o.len() && speaks_of(#[trigger] o[i], kind, uuid);
        assert(holds(older, o[i]));
        assert(!has_key(n, o[i].key())) by {
            if has_key(n, o[i].key()) {
                let j = choose|j: int| 0 <= j < n.len() && (#[trigger] n[j]).key() == o[i].key();
                assert(holds(newer, n[j]));
                lemma_known_kinds(newer, n[j]);
                assert(o[i].kind % 2 == n[j].kind % 2);
                assert(speaks_of(n[j], kind, uuid));
            }
        }
        assert(o.contains(o[i]));
        assert(m.contains(o[i]));
        let k = choose|k: int| 0 <= k < m.len() && m[k] == o[i];
        assert(speaks_of(m[k], kind, uuid));
    } else {
        assert forall|k: int| 0 <= k < m.len() implies !speaks_of(#[trigger] m[k], kind, uuid) by {
            assert(m.contains(m[k]));
            if n.contains(m[k]) {
                let j = choose|j: int| 0 <= j < n.len() && n[j] == m[k];
                assert(!speaks_of(n[j], kind, uuid));
            } else {
                let j = choose|j: int| 0 <= j < o.len() && o[j] == m[k];
                assert(!speaks_of(o[j], kind, uuid));
            }
        }
    }
}

/// A run that overlays an older one with a newer one joins them.
pub proof fn lemma_overlay_joins(merged: RunModel, older: RunModel, newer: RunModel)
    requires
        ordered(merged.identity_records()),
        ordered(older.identity_records()),
        ordered(newer.identity_records()),
        is_overlay(
            merged.identity_records(),
            older.identity_records(),
            newer.identity_records(),
        ),
        agree(older, newer),
    ensures
        joins(merged, older, newer),
{
    assert forall|kind: UuidIndexKind, uuid: u128| #[trigger] knows(merged, kind, uuid) == if knows(
        newer,
        kind,
        uuid,
    ) is Some {
        knows(newer, kind, uuid)
    } else {
        knows(older, kind, uuid)
    } by {
        lemma_overlay_known(merged, older, newer, kind, uuid);
    }
}

pub(crate) proof fn lemma_replaced_authentic(
    before: Seq<RunModel>,
    after: Seq<RunModel>,
    first: int,
    second: int,
)
    requires
        all_authentic(before),
        0 <= first < second < before.len(),
        after.len() > 0,
        after.drop_last() == before.remove(second).remove(first),
        after.last().authentic(),
    ensures
        all_authentic(after),
{
    lemma_left_over(before, after, first, second);
    assert forall|i: int| 0 <= i < after.len() implies (#[trigger] after[i]).authentic() by {
        if i < after.len() - 1 {
            assert(before[shifted(i, first, second)].authentic());
        }
    }
}

pub(crate) proof fn lemma_replaced_all_decided(
    before: Seq<RunModel>,
    after: Seq<RunModel>,
    first: int,
    second: int,
    older: RunModel,
    newer: RunModel,
)
    requires
        apart(before),
        replaces(before, after, first, second, older, newer),
    ensures
        forall|kind: UuidIndexKind, uuid: u128, state: Option<IdentityState>| #[trigger]
            decided(before, kind, uuid, state) ==> decided(after, kind, uuid, state),
{
    assert forall|kind: UuidIndexKind, uuid: u128, state: Option<IdentityState>| #[trigger]
        decided(before, kind, uuid, state) implies decided(after, kind, uuid, state) by {
        lemma_replaced_decided(before, after, first, second, older, newer, kind, uuid, state);
    }
}

proof fn lemma_replaced_sound(
    before: Seq<RunModel>,
    after: Seq<RunModel>,
    first: int,
    second: int,
    older: RunModel,
    newer: RunModel,
)
    requires
        sound(before),
        replaces(before, after, first, second, older, newer),
        after.last().authentic(),
    ensures
        sound(after),
        forall|kind: UuidIndexKind, uuid: u128, state: Option<IdentityState>| #[trigger]
            decided(before, kind, uuid, state) ==> decided(after, kind, uuid, state),
{
    assert(apart(after)) by {
        lemma_replaced_apart(before, after, first, second, older, newer);
    }
    assert(one_domain(after)) by {
        lemma_replaced_domain(before, after, first, second, older, newer);
    }
    assert(all_authentic(after)) by {
        lemma_replaced_authentic(before, after, first, second);
    }
    lemma_replaced_all_decided(before, after, first, second, older, newer);
}

proof fn lemma_agree(runs: Seq<RunModel>, left: RunModel, right: RunModel)
    requires
        one_domain(runs),
        runs.contains(left),
        runs.contains(right),
    ensures
        agree(left, right),
{
    assert forall|a: Identity, b: Identity| #[trigger]
        holds(left, a) && #[trigger] holds(right, b) && a.uuid == b.uuid implies a.kind % 2
        == b.kind % 2 by {
        assert(held(runs, a));
        assert(held(runs, b));
    }
}

pub(crate) proof fn lemma_pair_members(runs: Seq<RunModel>, level: u8)
    requires
        members(runs, level).len() >= 2,
    ensures
        ({
            let at = members(runs, level);
            let (older, newer) = level_pair(runs, level);
            &&& 0 <= at[0] < at[1] < runs.len()
            &&& runs.contains(older)
            &&& runs.contains(newer)
            &&& (older == runs[at[0]] && newer == runs[at[1]]) || (older == runs[at[1]] && newer
                == runs[at[0]])
            &&& older.run.first_generation <= newer.run.first_generation
        }),
{
    lemma_members(runs, level);
    let at = members(runs, level);
    assert(0 <= at[0] < runs.len());
    assert(0 <= at[1] < runs.len());
    assert(at[0] < at[1]);
    assert(runs.contains(runs[at[0]]));
    assert(runs.contains(runs[at[1]]));
}

proof fn lemma_plan_step_replaces(before: PlanModel, after: PlanModel, level: u8)
    requires
        plan_step(before, after, level),
        one_domain(before.runs),
        members(before.runs, level).len() >= 2,
    ensures
        ({
            let at = members(before.runs, level);
            let (older, newer) = level_pair(before.runs, level);
            &&& replaces(before.runs, after.runs, at[0], at[1], older, newer)
            &&& after.runs.last().authentic()
        }),
{
    lemma_pair_members(before.runs, level);
    let (older, newer) = level_pair(before.runs, level);
    lemma_agree(before.runs, older, newer);
    lemma_overlay_joins(after.runs.last(), older, newer);
}

proof fn lemma_plan_step_sound(before: PlanModel, after: PlanModel, level: u8)
    requires
        plan_step(before, after, level),
        sound(before.runs),
    ensures
        sound(after.runs),
        forall|kind: UuidIndexKind, uuid: u128, state: Option<IdentityState>| #[trigger]
            decided(before.runs, kind, uuid, state) ==> decided(after.runs, kind, uuid, state),
{
    if members(before.runs, level).len() >= 2 {
        let at = members(before.runs, level);
        let (older, newer) = level_pair(before.runs, level);
        lemma_plan_step_replaces(before, after, level);
        lemma_replaced_sound(before.runs, after.runs, at[0], at[1], older, newer);
    }
}

proof fn lemma_plan_chain_sound(states: Seq<PlanModel>, n: int)
    requires
        plan_chain(states),
        sound(states[0].runs),
        0 <= n < states.len(),
    ensures
        sound(states[n].runs),
        forall|kind: UuidIndexKind, uuid: u128, state: Option<IdentityState>| #[trigger]
            decided(states[0].runs, kind, uuid, state) ==> decided(
                states[n].runs,
                kind,
                uuid,
                state,
            ),
    decreases n,
{
    if n > 0 {
        lemma_plan_chain_sound(states, n - 1);
        assert(plan_step_at(states, n - 1));
        lemma_plan_step_sound(states[n - 1], states[n], (n - 1) as u8);
        assert forall|kind: UuidIndexKind, uuid: u128, state: Option<IdentityState>| #[trigger]
            decided(states[0].runs, kind, uuid, state) implies decided(
            states[n].runs,
            kind,
            uuid,
            state,
        ) by {
            assert(decided(states[n - 1].runs, kind, uuid, state));
        }
    }
}

/// The descriptors of an index are valid.
#[verifier::opaque]
spec fn linked(index: IndexModel) -> bool {
    descriptors_valid(index.manifest())
}

proof fn lemma_link(index: IndexModel, i: int)
    requires
        linked(index),
        0 <= i < index.runs.len(),
    ensures
        index.runs[i].run.first_generation <= index.runs[i].run.last_generation,
        i + 1 < index.runs.len() ==> index.runs[i].run.last_generation + 1 == index.runs[i
            + 1].run.first_generation,
        i + 1 == index.runs.len() ==> index.runs[i].run.last_generation
            == index.current_generation,
{
    reveal(linked);
    let views = index.manifest().runs;
    assert(link_at(index.manifest(), i));
    assert(views[i] == index.runs[i].run);
    if i + 1 < index.runs.len() {
        assert(views[i + 1] == index.runs[i + 1].run);
    }
}

proof fn lemma_later_run(index: IndexModel, i: int, j: int)
    requires
        linked(index),
        0 <= i < j < index.runs.len(),
    ensures
        index.runs[i].run.last_generation < index.runs[j].run.first_generation,
        index.runs[j].run.first_generation <= index.runs[j].run.last_generation,
    decreases j,
{
    lemma_link(index, j - 1);
    lemma_link(index, j);
    if i < j - 1 {
        lemma_later_run(index, i, j - 1);
    }
}

proof fn lemma_linked_chronological(index: IndexModel)
    requires
        linked(index),
    ensures
        apart(index.runs),
        chronological(index.runs),
        forall|i: int|
            0 <= i < index.runs.len() ==> (#[trigger] index.runs[i]).run.last_generation
                <= index.current_generation,
{
    let runs = index.runs;
    assert forall|i: int| 0 <= i < runs.len() implies (#[trigger] runs[i]).run.first_generation
        <= runs[i].run.last_generation by {
        lemma_link(index, i);
    }
    assert forall|i: int, j: int| 0 <= i < j < runs.len() implies (
    #[trigger] runs[i]).run.last_generation < (#[trigger] runs[j]).run.first_generation by {
        lemma_later_run(index, i, j);
    }
    assert forall|i: int| 0 <= i < runs.len() implies (#[trigger] runs[i]).run.last_generation
        <= index.current_generation by {
        let last = runs.len() - 1;
        lemma_link(index, last);
        if i < last {
            assert(runs[i].run.last_generation < runs[last].run.first_generation);
        }
    }
}

/// The runs of a valid manifest follow one another.
pub proof fn lemma_valid_chronological(index: IndexModel)
    requires
        descriptors_valid(index.manifest()),
    ensures
        apart(index.runs),
        chronological(index.runs),
        forall|i: int|
            0 <= i < index.runs.len() ==> (#[trigger] index.runs[i]).run.last_generation
                <= index.current_generation,
{
    assert(linked(index)) by {
        reveal(linked);
    }
    lemma_linked_chronological(index);
}

pub(crate) proof fn lemma_pushed_apart(runs: Seq<RunModel>, run: RunModel)
    requires
        apart(runs),
        run.run.first_generation <= run.run.last_generation,
        forall|i: int|
            0 <= i < runs.len() ==> (#[trigger] runs[i]).run.last_generation
                < run.run.first_generation,
    ensures
        apart(runs.push(run)),
{
    let all = runs.push(run);
    assert forall|i: int, j: int|
        0 <= i < all.len() && 0 <= j < all.len() && i != j implies (
    #[trigger] all[i]).run.last_generation < (#[trigger] all[j]).run.first_generation
        || all[j].run.last_generation < all[i].run.first_generation by {
        if i < runs.len() {
            assert(all[i] == runs[i]);
        }
        if j < runs.len() {
            assert(all[j] == runs[j]);
        }
    }
    assert forall|i: int| 0 <= i < all.len() implies (#[trigger] all[i]).run.first_generation
        <= all[i].run.last_generation by {
        if i < runs.len() {
            assert(all[i] == runs[i]);
        }
    }
}

proof fn lemma_pushed_domain(runs: Seq<RunModel>, run: RunModel)
    requires
        one_domain(runs),
        agree(run, run),
        forall|other: RunModel| #[trigger] runs.contains(other) ==> agree(other, run),
    ensures
        one_domain(runs.push(run)),
{
    let all = runs.push(run);
    lemma_push_contains(runs, run);
    assert forall|left: Identity, right: Identity|
        #![trigger held(all, left), held(all, right)]
        held(all, left) && held(all, right) && left.uuid == right.uuid implies left.kind % 2
        == right.kind % 2 by {
        let a = choose|other: RunModel| #[trigger] all.contains(other) && holds(other, left);
        let b = choose|other: RunModel| #[trigger] all.contains(other) && holds(other, right);
        if runs.contains(a) && runs.contains(b) {
            assert(held(runs, left) && held(runs, right));
        } else if runs.contains(a) {
            assert(agree(a, run));
        } else if runs.contains(b) {
            assert(agree(b, run));
        } else {
            assert(agree(run, run));
        }
    }
}

/// A newer run decides what it knows, and leaves the rest.
pub proof fn lemma_pushed_decided(
    runs: Seq<RunModel>,
    run: RunModel,
    kind: UuidIndexKind,
    uuid: u128,
    state: Option<IdentityState>,
)
    requires
        decided(runs, kind, uuid, state),
        forall|i: int|
            0 <= i < runs.len() ==> (#[trigger] runs[i]).run.first_generation
                <= run.run.first_generation,
    ensures
        decided(
            runs.push(run),
            kind,
            uuid,
            if knows(run, kind, uuid) is Some {
                knows(run, kind, uuid)
            } else {
                state
            },
        ),
{
    let all = runs.push(run);
    lemma_push_contains(runs, run);
    if knows(run, kind, uuid) is Some {
        assert forall|other: RunModel| #[trigger]
            all.contains(other) && knows(other, kind, uuid) is Some implies
            other.run.first_generation <= run.run.first_generation by {
            if other != run {
                let i = choose|i: int| 0 <= i < runs.len() && runs[i] == other;
                assert(runs[i].run.first_generation <= run.run.first_generation);
            }
        }
        assert(decides(all, run, kind, uuid));
    } else if state is Some {
        let newest = choose|other: RunModel| #[trigger]
            decides(runs, other, kind, uuid) && knows(other, kind, uuid) == state;
        assert(decides(all, newest, kind, uuid));
    }
}

proof fn lemma_delta_encodable(delta: DeltaModel, record: Identity)
    requires
        delta.identities().contains(record),
    ensures
        record.valid(),
{
    let all = delta.identities();
    let i = choose|i: int| 0 <= i < all.len() && all[i] == record;
    let a = delta.nodes.len() as int;
    let b = a + delta.edges.len();
    let c = b + delta.deleted_nodes.len();
    if i < a {
        assert(all[i] == node_identities(delta.nodes, 0)[i]);
    } else if i < b {
        assert(all[i] == edge_identities(delta.edges, 1)[i - a]);
    } else if i < c {
        assert(all[i] == node_identities(delta.deleted_nodes, 2)[i - b]);
    } else {
        assert(all[i] == edge_identities(delta.deleted_edges, 3)[i - c]);
    }
}

proof fn lemma_delta_records(
    run: RunModel,
    identities: Seq<Identity>,
    surrogates: Seq<NodeSurrogate>,
    delta: DeltaModel,
    generation: u64,
)
    requires
        planned_run(run, identities, surrogates, delta, generation),
        delta_sorted(identities, surrogates, delta),
    ensures
        run.identity_records() == identities,
        run.authentic(),
        same_items(identities, delta.identities()),
{
    lemma_multiset_contains(identities, delta.identities());
    assert forall|i: int| 0 <= i < identities.len() implies (#[trigger] identities[i]).valid() by {
        assert(identities.contains(identities[i]));
        lemma_delta_encodable(delta, identities[i]);
    }
    lemma_scan_packed(identities);
}

proof fn lemma_no_collision_agrees(
    older: RunModel,
    run: RunModel,
    identities: Seq<Identity>,
    surrogates: Seq<NodeSurrogate>,
)
    requires
        older.authentic(),
        run.identity_records() == identities,
        collision_fault(older, identities, surrogates) is None,
    ensures
        agree(older, run),
{
    let keys = number_keys(identities);
    let blocks = older.run.identities.blocks;
    lemma_fence_selection::<Identity>(older.identities, older.run.identities, keys);
    let wanted = wanted_items::<Identity>(older.identities, blocks, keys);
    assert forall|a: Identity, b: Identity| #[trigger]
        holds(older, a) && #[trigger] holds(run, b) && a.uuid == b.uuid implies a.kind % 2 == b.kind
        % 2 by {
        let i = choose|i: int| 0 <= i < identities.len() && identities[i] == b;
        assert(keys[i] == b.uuid);
        assert(a.key() == keys[i]);
        assert(wanted.contains(a));
        let j = choose|j: int| 0 <= j < wanted.len() && wanted[j] == a;
        assert(identities[i].uuid == wanted[j].uuid);
        assert(!identity_collision(identities, wanted));
        assert(deletes(identities[i], wanted[j]));
    }
}

proof fn lemma_own_domain(run: RunModel)
    requires
        ordered(run.identity_records()),
    ensures
        agree(run, run),
{
    let records = run.identity_records();
    assert forall|a: Identity, b: Identity| #[trigger]
        holds(run, a) && #[trigger] holds(run, b) && a.uuid == b.uuid implies a.kind % 2 == b.kind
        % 2 by {
        let i = choose|i: int| 0 <= i < records.len() && records[i] == a;
        let j = choose|j: int| 0 <= j < records.len() && records[j] == b;
        if i < j {
            assert(records[i].key() < records[j].key());
        } else if j < i {
            assert(records[j].key() < records[i].key());
        }
    }
}

/// Whether an index is one that a plan may start from.
pub open spec fn extendable(prior: Option<IndexModel>) -> bool {
    prior matches Some(index) ==> descriptors_valid(index.manifest()) && all_authentic(index.runs)
        && one_domain(index.runs)
}

/// An index that a plan may start from, its descriptors out of sight.
spec fn usable(index: IndexModel) -> bool {
    linked(index) && all_authentic(index.runs) && one_domain(index.runs) && index.runs.len() > 0
}

proof fn lemma_usable(prior: Option<IndexModel>)
    requires
        extendable(prior),
    ensures
        prior matches Some(index) ==> usable(index),
{
    reveal(linked);
    if let Some(index) = prior {
        assert(index.manifest().runs.len() == index.runs.len());
    }
}

proof fn lemma_prior_agrees(
    runs: Seq<RunModel>,
    run: RunModel,
    identities: Seq<Identity>,
    surrogates: Seq<NodeSurrogate>,
)
    requires
        all_authentic(runs),
        run.identity_records() == identities,
        forall|i: int|
            0 <= i < runs.len() ==> collision_fault(
                #[trigger] runs[i],
                identities,
                surrogates,
            ) is None,
    ensures
        forall|other: RunModel| #[trigger] runs.contains(other) ==> agree(other, run),
{
    assert forall|other: RunModel| #[trigger] runs.contains(other) implies agree(other, run) by {
        let i = choose|i: int| 0 <= i < runs.len() && runs[i] == other;
        assert(runs[i].authentic());
        assert(collision_fault(runs[i], identities, surrogates) is None);
        lemma_no_collision_agrees(other, run, identities, surrogates);
    }
}

proof fn lemma_base_alone(base: RunModel)
    requires
        empty_base(base),
    ensures
        sound(seq![base]),
        base.identity_records() == Seq::<Identity>::empty(),
{
    let runs = seq![base];
    assert(base.identity_records() =~= Seq::<Identity>::empty());
    assert forall|left: Identity, right: Identity|
        #![trigger held(runs, left), held(runs, right)]
        held(runs, left) && held(runs, right) && left.uuid == right.uuid implies left.kind % 2
        == right.kind % 2 by {
        let a = choose|other: RunModel| #[trigger] runs.contains(other) && holds(other, left);
        assert(a == base);
        assert(base.identity_records().contains(left));
    }
}

/// Whether runs are those that a delta of a generation may be put on top of.
spec fn grounded(
    runs: Seq<RunModel>,
    run: RunModel,
    prior: Option<IndexModel>,
    generation: u64,
) -> bool {
    &&& sound(runs)
    &&& forall|i: int|
        0 <= i < runs.len() ==> (#[trigger] runs[i]).run.last_generation < generation
    &&& forall|other: RunModel| #[trigger] runs.contains(other) ==> agree(other, run)
    &&& forall|kind: UuidIndexKind, uuid: u128|
        decided(runs, kind, uuid, #[trigger] membership(start_index(prior).runs, kind, uuid))
}

proof fn lemma_prior_grounded(
    index: IndexModel,
    run: RunModel,
    current: u64,
    generation: u64,
    identities: Seq<Identity>,
    surrogates: Seq<NodeSurrogate>,
)
    requires
        linked(index),
        all_authentic(index.runs),
        one_domain(index.runs),
        index.current_generation == current,
        current < generation,
        run.identity_records() == identities,
        forall|i: int|
            0 <= i < index.runs.len() ==> collision_fault(
                #[trigger] index.runs[i],
                identities,
                surrogates,
            ) is None,
    ensures
        grounded(index.runs, run, Some(index), generation),
{
    let runs = index.runs;
    lemma_linked_chronological(index);
    lemma_prior_agrees(runs, run, identities, surrogates);
    assert forall|kind: UuidIndexKind, uuid: u128| decided(
        runs,
        kind,
        uuid,
        #[trigger] membership(runs, kind, uuid),
    ) by {
        lemma_membership_decided(runs, kind, uuid);
    }
}

proof fn lemma_base_grounded(base: RunModel, run: RunModel, generation: u64)
    requires
        empty_base(base),
        0 < generation,
    ensures
        grounded(seq![base], run, None, generation),
{
    let runs = seq![base];
    lemma_base_alone(base);
    assert forall|other: RunModel| #[trigger] runs.contains(other) implies agree(other, run) by {
        assert(other == base);
        assert forall|a: Identity, b: Identity| #[trigger]
            holds(other, a) && #[trigger] holds(run, b) && a.uuid == b.uuid implies a.kind % 2
            == b.kind % 2 by {
            assert(base.identity_records().contains(a));
        }
    }
    assert forall|kind: UuidIndexKind, uuid: u128| decided(
        runs,
        kind,
        uuid,
        #[trigger] membership(start_index(None).runs, kind, uuid),
    ) by {
        assert(knows(base, kind, uuid) is None);
        assert forall|other: RunModel| #[trigger] runs.contains(other) implies knows(
            other,
            kind,
            uuid,
        ) is None by {
            assert(other == base);
        }
    }
}

/// Whether a run starts out as an empty base run, its files out of sight.
#[verifier::opaque]
spec fn blank(run: RunModel) -> bool {
    empty_base(run)
}

/// Where a plan starts from: the prior runs, or else an empty base run, below
/// the run of the delta.
spec fn starts_from(start: PlanModel, prior: Option<IndexModel>) -> bool {
    &&& start.runs.len() > 0
    &&& match prior {
        Some(index) => start.runs.drop_last() == index.runs,
        None => start.runs.len() == 2 && start.runs.drop_last() == seq![start.runs[0]] && blank(
            start.runs[0],
        ),
    }
}

#[verifier::rlimit(40)]
proof fn lemma_start_shape(
    start: PlanModel,
    prior: Option<IndexModel>,
    current: u64,
    identities: Seq<Identity>,
    surrogates: Seq<NodeSurrogate>,
    delta: DeltaModel,
    generation: u64,
    admitted: (u64, u64),
)
    requires
        prior is None ==> current == 0,
        prior matches Some(index) ==> index.runs.len() > 0,
        plan_start(
            start,
            start_index(prior),
            current,
            identities,
            surrogates,
            delta,
            generation,
            admitted,
        ),
    ensures
        starts_from(start, prior),
        planned_run(start.runs.last(), identities, surrogates, delta, generation),
{
    let runs = start_index(prior).runs;
    let run = start.runs.last();
    if let Some(index) = prior {
        assert(start.runs.drop_last() =~= runs);
    } else {
        let base = start.runs[start.runs.len() - 2];
        assert(empty_base(base));
        assert(blank(base)) by {
            reveal(blank);
        }
        assert(start.runs =~= seq![base, run]);
        assert(start.runs.drop_last() =~= seq![base]);
    }
}

proof fn lemma_start_grounded(
    start: PlanModel,
    prior: Option<IndexModel>,
    current: u64,
    identities: Seq<Identity>,
    surrogates: Seq<NodeSurrogate>,
    generation: u64,
)
    requires
        prior matches Some(index) ==> usable(index) && index.current_generation == current,
        current < generation,
        starts_from(start, prior),
        forall|i: int|
            0 <= i < start_index(prior).runs.len() ==> collision_fault(
                #[trigger] start_index(prior).runs[i],
                identities,
                surrogates,
            ) is None,
        start.runs.last().identity_records() == identities,
    ensures
        grounded(start.runs.drop_last(), start.runs.last(), prior, generation),
{
    let run = start.runs.last();
    if let Some(index) = prior {
        assert(start_index(prior).runs == index.runs);
        assert forall|i: int| 0 <= i < index.runs.len() implies collision_fault(
            #[trigger] index.runs[i],
            identities,
            surrogates,
        ) is None by {
            assert(collision_fault(start_index(prior).runs[i], identities, surrogates) is None);
        }
        lemma_prior_grounded(index, run, current, generation, identities, surrogates);
    } else {
        let base = start.runs[0];
        assert(empty_base(base)) by {
            reveal(blank);
        }
        lemma_base_grounded(base, run, generation);
    }
}

/// Whether a delta speaks of a UUID in a domain.
pub open spec fn mentions(delta: DeltaModel, kind: UuidIndexKind, uuid: u128) -> bool {
    exists|record: Identity| #[trigger]
        delta.identities().contains(record) && speaks_of(record, kind, uuid)
}

proof fn lemma_delta_known(
    run: RunModel,
    delta: DeltaModel,
    kind: UuidIndexKind,
    uuid: u128,
)
    requires
        ordered(run.identity_records()),
        same_items(run.identity_records(), delta.identities()),
    ensures
        forall|record: Identity|
            #[trigger] delta.identities().contains(record) && speaks_of(record, kind, uuid)
                ==> knows(run, kind, uuid) == Some(
                IdentityState {
                    present: record.kind == live_kind(kind),
                    surrogate: record.surrogate,
                },
            ),
        !mentions(delta, kind, uuid) ==> knows(run, kind, uuid) is None,
{
    let records = run.identity_records();
    lemma_state_in_ordered(records, kind, uuid);
    assert forall|record: Identity| #[trigger]
        delta.identities().contains(record) && speaks_of(record, kind, uuid) implies knows(
        run,
        kind,
        uuid,
    ) == Some(
        IdentityState { present: record.kind == live_kind(kind), surrogate: record.surrogate },
    ) by {
        assert(records.contains(record));
        let i = choose|i: int| 0 <= i < records.len() && records[i] == record;
        assert(speaks_of(records[i], kind, uuid));
    }
    if knows(run, kind, uuid) is Some {
        let i = choose|i: int| 0 <= i < records.len() && speaks_of(#[trigger] records[i], kind, uuid);
        assert(records.contains(records[i]));
        assert(delta.identities().contains(records[i]));
    }
}

/// What an index says of a UUID once a delta is on top of it.
pub open spec fn updated(
    delta: DeltaModel,
    kind: UuidIndexKind,
    uuid: u128,
    before: Option<IdentityState>,
    after: Option<IdentityState>,
) -> bool {
    &&& forall|record: Identity|
        #[trigger] delta.identities().contains(record) && speaks_of(record, kind, uuid) ==> after
            == Some(
            IdentityState {
                present: record.kind == live_kind(kind),
                surrogate: record.surrogate,
            },
        )
    &&& !mentions(delta, kind, uuid) ==> after == before
}

/// What a run says of a UUID, or else what the prior index says.
spec fn on_top(
    run: RunModel,
    prior: Option<IndexModel>,
    kind: UuidIndexKind,
    uuid: u128,
) -> Option<IdentityState> {
    if knows(run, kind, uuid) is Some {
        knows(run, kind, uuid)
    } else {
        membership(start_index(prior).runs, kind, uuid)
    }
}

proof fn lemma_started(
    start: PlanModel,
    prior: Option<IndexModel>,
    delta: DeltaModel,
    generation: u64,
)
    requires
        start.runs.len() > 0,
        grounded(start.runs.drop_last(), start.runs.last(), prior, generation),
        start.runs.last().authentic(),
        start.runs.last().run.first_generation == generation,
        start.runs.last().run.last_generation == generation,
        same_items(start.runs.last().identity_records(), delta.identities()),
    ensures
        sound(start.runs),
        forall|kind: UuidIndexKind, uuid: u128|
            decided(
                start.runs,
                kind,
                uuid,
                #[trigger] on_top(start.runs.last(), prior, kind, uuid),
            ),
{
    let runs = start.runs.drop_last();
    let run = start.runs.last();
    assert(start.runs =~= runs.push(run));
    assert(ordered(run.identity_records()));
    lemma_own_domain(run);
    lemma_pushed_apart(runs, run);
    lemma_pushed_domain(runs, run);
    assert forall|i: int| 0 <= i < start.runs.len() implies (
    #[trigger] start.runs[i]).authentic() by {
        if i < runs.len() {
            assert(runs[i].authentic());
        }
    }
    assert forall|kind: UuidIndexKind, uuid: u128| decided(
        start.runs,
        kind,
        uuid,
        #[trigger] on_top(run, prior, kind, uuid),
    ) by {
        let state = membership(start_index(prior).runs, kind, uuid);
        assert(decided(runs, kind, uuid, state));
        assert forall|i: int| 0 <= i < runs.len() implies (
        #[trigger] runs[i]).run.first_generation <= run.run.first_generation by {
            assert(runs[i].run.first_generation <= runs[i].run.last_generation);
        }
        lemma_pushed_decided(runs, run, kind, uuid, state);
    }
}

proof fn lemma_finished(
    done: PlanModel,
    index: IndexModel,
    kind: UuidIndexKind,
    uuid: u128,
    state: Option<IdentityState>,
)
    requires
        sound(done.runs),
        decided(done.runs, kind, uuid, state),
        index.runs.to_multiset() == done.runs.to_multiset(),
        chronological(index.runs),
    ensures
        membership(index.runs, kind, uuid) == state,
{
    lemma_multiset_contains(index.runs, done.runs);
    lemma_membership_decided(index.runs, kind, uuid);
    lemma_decided_reordered(
        index.runs,
        done.runs,
        kind,
        uuid,
        membership(index.runs, kind, uuid),
    );
    lemma_decided_once(done.runs, kind, uuid, state, membership(index.runs, kind, uuid));
}

proof fn lemma_finished_sound(done: PlanModel, index: IndexModel)
    requires
        sound(done.runs),
        index.runs.to_multiset() == done.runs.to_multiset(),
        apart(index.runs),
    ensures
        sound(index.runs),
{
    lemma_multiset_contains(index.runs, done.runs);
    assert forall|i: int| 0 <= i < index.runs.len() implies (
    #[trigger] index.runs[i]).authentic() by {
        assert(index.runs.contains(index.runs[i]));
        assert(done.runs.contains(index.runs[i]));
        let k = choose|k: int| 0 <= k < done.runs.len() && done.runs[k] == index.runs[i];
        assert(done.runs[k].authentic());
    }
    assert forall|record: Identity| #[trigger] held(index.runs, record) implies held(
        done.runs,
        record,
    ) by {
        let run = choose|run: RunModel| #[trigger] index.runs.contains(run) && holds(run, record);
        assert(done.runs.contains(run));
    }
    assert forall|left: Identity, right: Identity|
        #![trigger held(index.runs, left), held(index.runs, right)]
        held(index.runs, left) && held(index.runs, right) && left.uuid == right.uuid implies
        left.kind % 2 == right.kind % 2 by {
        assert(held(done.runs, left) && held(done.runs, right));
    }
}

proof fn lemma_planned_updated(
    planned: PlannedDelta,
    states: Seq<PlanModel>,
    identities: Seq<Identity>,
    surrogates: Seq<NodeSurrogate>,
    current: u64,
    generation: u64,
    prior: Option<IndexModel>,
    admitted: (u64, u64),
    delta: DeltaModel,
    kind: UuidIndexKind,
    uuid: u128,
)
    requires
        plans(
            planned,
            states,
            identities,
            surrogates,
            current,
            generation,
            prior,
            admitted,
            delta,
        ),
        prior is None ==> current == 0,
        prior matches Some(index) ==> usable(index) && index.current_generation == current,
        current < generation,
    ensures
        sound(planned.index@.runs),
        updated(
            delta,
            kind,
            uuid,
            membership(start_index(prior).runs, kind, uuid),
            membership(planned.index@.runs, kind, uuid),
        ),
{
    let start = states[0];
    let run = start.runs.last();
    let index = planned.index@;
    let done = states.last();
    lemma_start_shape(
        start,
        prior,
        current,
        identities,
        surrogates,
        delta,
        generation,
        admitted,
    );
    lemma_delta_records(run, identities, surrogates, delta, generation);
    lemma_start_grounded(start, prior, current, identities, surrogates, generation);
    lemma_started(start, prior, delta, generation);
    lemma_plan_chain_sound(states, states.len() - 1);
    assert(linked(index)) by {
        reveal(linked);
    }
    lemma_linked_chronological(index);
    let state = on_top(run, prior, kind, uuid);
    assert(decided(start.runs, kind, uuid, state));
    assert(decided(done.runs, kind, uuid, state));
    lemma_finished(done, index, kind, uuid, state);
    lemma_finished_sound(done, index);
    lemma_delta_known(run, delta, kind, uuid);
}

/// What is written is what is read: an index with a delta of a later
/// generation on top says of every UUID of the delta what the delta says, and
/// of every other UUID what it said before, whatever runs are merged. The new
/// index can be extended in turn.
pub proof fn lemma_delta_read_back(
    planned: PlannedDelta,
    current: u64,
    generation: u64,
    prior: Option<IndexModel>,
    admitted: (u64, u64),
    delta: DeltaModel,
    kind: UuidIndexKind,
    uuid: u128,
)
    requires
        planning(Ok(planned), current, generation, prior, admitted, delta),
        extendable(prior),
        current < generation,
    ensures
        extendable(Some(planned.index@)),
        updated(
            delta,
            kind,
            uuid,
            membership(start_index(prior).runs, kind, uuid),
            membership(planned.index@.runs, kind, uuid),
        ),
{
    let (states, identities, surrogates) = choose|
        states: Seq<PlanModel>,
        identities: Seq<Identity>,
        surrogates: Seq<NodeSurrogate>,
    | #[trigger]
        plans(
            planned,
            states,
            identities,
            surrogates,
            current,
            generation,
            prior,
            admitted,
            delta,
        );
    lemma_usable(prior);
    lemma_planned_updated(
        planned,
        states,
        identities,
        surrogates,
        current,
        generation,
        prior,
        admitted,
        delta,
        kind,
        uuid,
    );
}

/// New nodes and edges are live, deleted ones are not, and a live node has the
/// surrogate that it was given.
pub proof fn lemma_delta_live(
    planned: PlannedDelta,
    current: u64,
    generation: u64,
    prior: Option<IndexModel>,
    admitted: (u64, u64),
    delta: DeltaModel,
    i: int,
)
    requires
        planning(Ok(planned), current, generation, prior, admitted, delta),
        extendable(prior),
        current < generation,
    ensures
        0 <= i < delta.nodes.len() ==> live_surrogate(planned.index@.runs, delta.nodes[i].uuid)
            == Some(delta.nodes[i].node_id),
        0 <= i < delta.edges.len() ==> is_live(
            planned.index@.runs,
            UuidIndexKind::Edge,
            delta.edges[i],
        ),
        0 <= i < delta.deleted_nodes.len() ==> !is_live(
            planned.index@.runs,
            UuidIndexKind::Node,
            delta.deleted_nodes[i].uuid,
        ),
        0 <= i < delta.deleted_edges.len() ==> !is_live(
            planned.index@.runs,
            UuidIndexKind::Edge,
            delta.deleted_edges[i],
        ),
{
    let all = delta.identities();
    let a = delta.nodes.len() as int;
    let b = a + delta.edges.len();
    let c = b + delta.deleted_nodes.len();
    if 0 <= i < delta.nodes.len() {
        let record = node_identities(delta.nodes, 0)[i];
        assert(all[i] == record);
        assert(all.contains(record));
        lemma_delta_read_back(
            planned,
            current,
            generation,
            prior,
            admitted,
            delta,
            UuidIndexKind::Node,
            record.uuid,
        );
        assert(speaks_of(record, UuidIndexKind::Node, record.uuid));
    }
    if 0 <= i < delta.edges.len() {
        let record = edge_identities(delta.edges, 1)[i];
        assert(all[a + i] == record);
        assert(all.contains(record));
        lemma_delta_read_back(
            planned,
            current,
            generation,
            prior,
            admitted,
            delta,
            UuidIndexKind::Edge,
            record.uuid,
        );
        assert(speaks_of(record, UuidIndexKind::Edge, record.uuid));
    }
    if 0 <= i < delta.deleted_nodes.len() {
        let record = node_identities(delta.deleted_nodes, 2)[i];
        assert(all[b + i] == record);
        assert(all.contains(record));
        lemma_delta_read_back(
            planned,
            current,
            generation,
            prior,
            admitted,
            delta,
            UuidIndexKind::Node,
            record.uuid,
        );
        assert(speaks_of(record, UuidIndexKind::Node, record.uuid));
    }
    if 0 <= i < delta.deleted_edges.len() {
        let record = edge_identities(delta.deleted_edges, 3)[i];
        assert(all[c + i] == record);
        assert(all.contains(record));
        lemma_delta_read_back(
            planned,
            current,
            generation,
            prior,
            admitted,
            delta,
            UuidIndexKind::Edge,
            record.uuid,
        );
        assert(speaks_of(record, UuidIndexKind::Edge, record.uuid));
    }
}

/// Runs of a level, the base run apart.
pub open spec fn runs_at(runs: Seq<RunModel>, level: u8) -> nat {
    members(runs, level).len()
}

proof fn lemma_runs_at_removed(runs: Seq<RunModel>, i: int, level: u8)
    requires
        0 <= i < runs.len(),
    ensures
        runs_at(runs, level) == runs_at(runs.remove(i), level) + if !runs[i].run.base
            && runs[i].run.level == level {
            1nat
        } else {
            0nat
        },
    decreases runs.len(),
{
    runs.remove_ensures(i);
    let left = runs.remove(i);
    if i == runs.len() - 1 {
        assert(left =~= runs.drop_last());
    } else {
        let front = runs.drop_last();
        front.remove_ensures(i);
        lemma_runs_at_removed(front, i, level);
        assert(left.drop_last() =~= front.remove(i));
        assert(left.last() == runs.last());
    }
}

proof fn lemma_runs_at_reordered(left: Seq<RunModel>, right: Seq<RunModel>, level: u8)
    requires
        left.to_multiset() == right.to_multiset(),
    ensures
        runs_at(left, level) == runs_at(right, level),
    decreases left.len(),
{
    lemma_multiset_contains(left, right);
    if left.len() > 0 {
        let run = left.last();
        assert(left.contains(left[left.len() - 1]));
        assert(right.contains(run));
        let k = choose|k: int| 0 <= k < right.len() && right[k] == run;
        assert(left.remove(left.len() - 1) =~= left.drop_last());
        to_multiset_remove(left, left.len() - 1);
        to_multiset_remove(right, k);
        lemma_runs_at_reordered(left.drop_last(), right.remove(k), level);
        lemma_runs_at_removed(right, k, level);
    }
}

proof fn lemma_step_levels(before: PlanModel, after: PlanModel, level: u8, other: u8)
    requires
        plan_step(before, after, level),
        level < 63,
        other <= level,
        other < level ==> runs_at(before.runs, other) <= 1,
    ensures
        runs_at(after.runs, other) <= 1,
{
    if members(before.runs, level).len() >= 2 {
        let at = members(before.runs, level);
        lemma_pair_members(before.runs, level);
        lemma_members(before.runs, level);
        let one = before.runs.remove(at[1]);
        before.runs.remove_ensures(at[1]);
        lemma_runs_at_removed(before.runs, at[1], other);
        lemma_runs_at_removed(one, at[0], other);
        assert(one[at[0]] == before.runs[at[0]]);
        assert(after.runs.drop_last() == one.remove(at[0]));
        assert(after.runs.last().run.level == level + 1);
    }
}

proof fn lemma_chain_levels(states: Seq<PlanModel>, n: int, other: u8)
    requires
        plan_chain(states),
        0 <= n < states.len(),
        other < n,
    ensures
        runs_at(states[n].runs, other) <= 1,
    decreases n,
{
    assert(plan_step_at(states, n - 1));
    if other < n - 1 {
        lemma_chain_levels(states, n - 1, other);
    }
    lemma_step_levels(states[n - 1], states[n], (n - 1) as u8, other);
}

/// A planned index has at most one run at each level, the base run apart: the
/// number of runs grows with the number of binary digits of the deltas.
pub proof fn lemma_levels_settled(
    planned: PlannedDelta,
    current: u64,
    generation: u64,
    prior: Option<IndexModel>,
    admitted: (u64, u64),
    delta: DeltaModel,
    level: u8,
)
    requires
        planning(Ok(planned), current, generation, prior, admitted, delta),
        level < 63,
    ensures
        runs_at(planned.index@.runs, level) <= 1,
{
    let (states, identities, surrogates) = choose|
        states: Seq<PlanModel>,
        identities: Seq<Identity>,
        surrogates: Seq<NodeSurrogate>,
    | #[trigger]
        plans(
            planned,
            states,
            identities,
            surrogates,
            current,
            generation,
            prior,
            admitted,
            delta,
        );
    lemma_chain_levels(states, states.len() - 1, level);
    lemma_runs_at_reordered(planned.index@.runs, states.last().runs, level);
}

} // verus!
