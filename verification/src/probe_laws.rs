//! What opens as an index, and what a probe of one tells of its own work.
use vstd::prelude::*;

use crate::bytes::sat_add;
use crate::error::GfError;
use crate::fences::{lemma_fence_selection, wanted_items};
use crate::framing::scan;
use crate::identity_codec::Identity;
use crate::index_format::{FORMAT_VERSION, ManifestView, RunView};
use crate::keyed::Keyed;
use crate::probing::{
    all_authentic, answers_live, answers_surrogate, IdentityState, increasing, is_distinct, is_live,
    joined, joined_runs, kind_count, lemma_unresolved, lemma_walk_is_membership, live_kind,
    looked_up, membership, new_pairs, newly_live, open_fault, open_states, pair_keys, probe_failed,
    probe_run, probe_walk, probed, resolved, run_fault, RunContents, speaks_of, start_metrics,
    state_in, unresolved, UuidIndexKind, UuidProbeMetrics, walk_fails,
};
use crate::records::NodeSurrogate;
use crate::runs::{descriptors_valid, link_at, RunModel};
use crate::snapshot_laws::{lemma_described_matches, lemma_matches_described, matches_record};

verus! {

/// Number of the states that are live.
pub open spec fn live_states(states: Seq<Option<IdentityState>>) -> nat
    decreases states.len(),
{
    if states.len() == 0 {
        0
    } else {
        live_states(states.drop_last()) + if states.last() is Some && states.last()->0.present {
            1nat
        } else {
            0nat
        }
    }
}

proof fn lemma_live_bound(states: Seq<Option<IdentityState>>)
    ensures
        live_states(states) <= states.len(),
    decreases states.len(),
{
    if states.len() > 0 {
        lemma_live_bound(states.drop_last());
    }
}

proof fn lemma_none_live(n: nat)
    ensures
        live_states(open_states(n)) == 0,
    decreases n,
{
    if n > 0 {
        assert(open_states(n).drop_last() =~= open_states((n - 1) as nat));
        lemma_none_live((n - 1) as nat);
    }
}

proof fn lemma_pairs_counted(
    unique: Seq<u128>,
    before: Seq<Option<IdentityState>>,
    after: Seq<Option<IdentityState>>,
    n: int,
)
    requires
        0 <= n <= unique.len(),
        before.len() == unique.len(),
        after.len() == unique.len(),
        forall|i: int|
            0 <= i < unique.len() && before[i] is Some ==> #[trigger] after[i] == before[i],
    ensures
        new_pairs(unique, before, after, n).len() + live_states(before.take(n)) == live_states(
            after.take(n),
        ),
    decreases n,
{
    if n > 0 {
        lemma_pairs_counted(unique, before, after, n - 1);
        assert(before.take(n).drop_last() =~= before.take(n - 1));
        assert(after.take(n).drop_last() =~= after.take(n - 1));
        assert(after[n - 1] == after.take(n).last());
    }
}

/// Whether the work of a probe is told as it is.
pub open spec fn work_told(work: UuidProbeMetrics, states: Seq<Option<IdentityState>>) -> bool {
    &&& work.found == live_states(states)
    &&& work.file_seeks == sat_add(work.identity_blocks_read, work.surrogate_blocks_read)
}

proof fn lemma_walk_told(
    runs: Seq<RunModel>,
    kind: UuidIndexKind,
    with_pairs: bool,
    unique: Seq<u128>,
    states: Seq<Option<IdentityState>>,
    metrics: UuidProbeMetrics,
)
    requires
        states.len() == unique.len(),
        unique.len() <= u64::MAX,
        metrics.runs_considered + runs.len() <= u64::MAX,
        work_told(metrics, states),
        probe_walk(runs, kind, with_pairs, unique, states, metrics) is Ok,
    ensures
        ({
            let (after, work) = probe_walk(runs, kind, with_pairs, unique, states, metrics)->Ok_0;
            &&& work_told(work, after)
            &&& work.requested == metrics.requested
            &&& work.unique_requested == metrics.unique_requested
            &&& work.per_record_seeks == metrics.per_record_seeks
            &&& metrics.runs_considered <= work.runs_considered <= metrics.runs_considered
                + runs.len()
            &&& work.runs_considered < metrics.runs_considered + runs.len() ==> unresolved(
                unique,
                after,
            ).len() == 0
            &&& !with_pairs ==> work.surrogate_blocks_read == metrics.surrogate_blocks_read
            &&& !with_pairs ==> work.surrogate_bytes_read == metrics.surrogate_bytes_read
        }),
    decreases runs.len(),
{
    if runs.len() > 0 && unresolved(unique, states).len() > 0 {
        let (next, work) = probe_run(runs.last(), kind, with_pairs, unique, states, metrics)->Ok_0;
        let n = unique.len() as int;
        lemma_pairs_counted(unique, states, next, n);
        assert(states.take(n) =~= states);
        assert(next.take(n) =~= next);
        lemma_live_bound(next);
        lemma_walk_told(runs.drop_last(), kind, with_pairs, unique, next, work);
    }
}

/// The UUIDs that a caller asks for and that the index holds live.
pub open spec fn live_requested(
    runs: Seq<RunModel>,
    kind: UuidIndexKind,
    requested: Seq<u128>,
) -> Set<u128> {
    requested.to_set().filter(|uuid: u128| is_live(runs, kind, uuid))
}

proof fn lemma_live_set(
    runs: Seq<RunModel>,
    kind: UuidIndexKind,
    unique: Seq<u128>,
    states: Seq<Option<IdentityState>>,
)
    requires
        increasing(unique),
        states.len() == unique.len(),
        forall|i: int|
            0 <= i < unique.len() ==> #[trigger] states[i] == membership(runs, kind, unique[i]),
    ensures
        live_requested(runs, kind, unique).finite(),
        live_requested(runs, kind, unique).len() == live_states(states),
    decreases unique.len(),
{
    let all = live_requested(runs, kind, unique);
    if unique.len() == 0 {
        assert(all =~= Set::empty());
    } else {
        let front = unique.drop_last();
        let last = unique.last();
        lemma_live_set(runs, kind, front, states.drop_last());
        let before = live_requested(runs, kind, front);
        assert(!front.contains(last));
        assert forall|uuid: u128| #[trigger] unique.contains(uuid) <==> front.contains(uuid) || uuid
            == last by {
            if front.contains(uuid) {
                let k = front.index_of(uuid);
                assert(unique[k] == uuid);
            }
            if unique.contains(uuid) && uuid != last {
                let k = unique.index_of(uuid);
                assert(front[k] == uuid);
            }
        }
        assert(states[unique.len() - 1] == membership(runs, kind, last));
        if is_live(runs, kind, last) {
            assert(all =~= before.insert(last));
        } else {
            assert(all =~= before);
        }
    }
}

proof fn lemma_distinct_counted(
    runs: Seq<RunModel>,
    kind: UuidIndexKind,
    requested: Seq<u128>,
    unique: Seq<u128>,
)
    requires
        is_distinct(unique, requested),
    ensures
        unique.len() == requested.to_set().len(),
        unique.len() <= requested.len(),
        live_requested(runs, kind, requested) == live_requested(runs, kind, unique),
{
    assert(unique.to_set() =~= requested.to_set());
    unique.unique_seq_to_set();
    requested.lemma_cardinality_of_set();
}

proof fn lemma_work_counted(
    runs: Seq<RunModel>,
    kind: UuidIndexKind,
    with_pairs: bool,
    requested: Seq<u128>,
    unique: Seq<u128>,
    states: Seq<Option<IdentityState>>,
    metrics: UuidProbeMetrics,
)
    requires
        all_authentic(runs),
        requested.len() <= u64::MAX,
        runs.len() <= u64::MAX,
        is_distinct(unique, requested),
        probe_walk(
            runs,
            kind,
            with_pairs,
            unique,
            open_states(unique.len()),
            start_metrics(requested.len() as u64, unique.len() as u64),
        ) == Ok::<(Seq<Option<IdentityState>>, UuidProbeMetrics), Seq<char>>((states, metrics)),
    ensures
        metrics.requested == requested.len(),
        metrics.unique_requested == requested.to_set().len(),
        metrics.found == live_requested(runs, kind, requested).len(),
        metrics.per_record_seeks == 0,
        metrics.file_seeks == sat_add(metrics.identity_blocks_read, metrics.surrogate_blocks_read),
        !with_pairs ==> metrics.surrogate_blocks_read == 0 && metrics.surrogate_bytes_read == 0,
        metrics.runs_considered <= runs.len(),
        metrics.runs_considered < runs.len() ==> forall|i: int|
            0 <= i < requested.len() ==> membership(runs, kind, #[trigger] requested[i]) is Some,
{
    lemma_distinct_counted(runs, kind, requested, unique);
    let none = open_states(unique.len());
    let start = start_metrics(requested.len() as u64, unique.len() as u64);
    lemma_none_live(unique.len());
    lemma_walk_is_membership(runs, kind, with_pairs, unique, none, start);
    lemma_walk_told(runs, kind, with_pairs, unique, none, start);
    lemma_live_set(runs, kind, unique, states);
    if metrics.runs_considered < runs.len() {
        lemma_unresolved(unique, states);
        assert forall|i: int| 0 <= i < requested.len() implies membership(
            runs,
            kind,
            #[trigger] requested[i],
        ) is Some by {
            assert(requested.contains(requested[i]));
            assert(unique.contains(requested[i]));
            let k = unique.index_of(requested[i]);
            assert(states[k] == membership(runs, kind, unique[k]));
            if states[k] is None {
                assert(unresolved(unique, states).contains(unique[k]));
            }
        }
    }
}

/// A probe tells how many UUIDs it was asked for, how many of these differ, and how
/// many of these are live. It seeks once for each block it reads and never for a
/// record, and it leaves a run out only where every UUID is known by then.
pub proof fn lemma_probe_told(
    found: Seq<bool>,
    metrics: UuidProbeMetrics,
    runs: Seq<RunModel>,
    kind: UuidIndexKind,
    requested: Seq<u128>,
)
    requires
        all_authentic(runs),
        probed(found, metrics, runs, kind, requested),
        requested.len() <= u64::MAX,
        runs.len() <= u64::MAX,
    ensures
        metrics.requested == requested.len(),
        metrics.unique_requested == requested.to_set().len(),
        metrics.found == live_requested(runs, kind, requested).len(),
        metrics.per_record_seeks == 0,
        metrics.file_seeks == metrics.identity_blocks_read,
        metrics.surrogate_blocks_read == 0,
        metrics.surrogate_bytes_read == 0,
        metrics.runs_considered <= runs.len(),
        metrics.runs_considered < runs.len() ==> forall|i: int|
            0 <= i < requested.len() ==> membership(runs, kind, #[trigger] requested[i]) is Some,
{
    let (unique, states) = choose|unique: Seq<u128>, states: Seq<Option<IdentityState>>|
        is_distinct(unique, requested) && probe_walk(
            runs,
            kind,
            false,
            unique,
            open_states(unique.len()),
            start_metrics(requested.len() as u64, unique.len() as u64),
        ) == Ok::<(Seq<Option<IdentityState>>, UuidProbeMetrics), Seq<char>>((states, metrics))
            && #[trigger] answers_live(found, requested, unique, states);
    lemma_work_counted(runs, kind, false, requested, unique, states, metrics);
}

/// A lookup tells how many UUIDs it was asked for, how many of these differ, and how
/// many of these are live nodes. It seeks once for each block it reads and never for
/// a record, and it leaves a run out only where every UUID is known by then.
pub proof fn lemma_lookup_told(
    found: Seq<Option<u64>>,
    metrics: UuidProbeMetrics,
    runs: Seq<RunModel>,
    requested: Seq<u128>,
)
    requires
        all_authentic(runs),
        looked_up(found, metrics, runs, requested),
        requested.len() <= u64::MAX,
        runs.len() <= u64::MAX,
    ensures
        metrics.requested == requested.len(),
        metrics.unique_requested == requested.to_set().len(),
        metrics.found == live_requested(runs, UuidIndexKind::Node, requested).len(),
        metrics.per_record_seeks == 0,
        metrics.identity_blocks_read + metrics.surrogate_blocks_read <= u64::MAX
            ==> metrics.file_seeks == metrics.identity_blocks_read + metrics.surrogate_blocks_read,
        metrics.runs_considered <= runs.len(),
        metrics.runs_considered < runs.len() ==> forall|i: int|
            0 <= i < requested.len() ==> membership(
                runs,
                UuidIndexKind::Node,
                #[trigger] requested[i],
            ) is Some,
{
    let (unique, states) = choose|unique: Seq<u128>, states: Seq<Option<IdentityState>>|
        is_distinct(unique, requested) && #[trigger] probe_walk(
            runs,
            UuidIndexKind::Node,
            true,
            unique,
            open_states(unique.len()),
            start_metrics(requested.len() as u64, unique.len() as u64),
        ) == Ok::<(Seq<Option<IdentityState>>, UuidProbeMetrics), Seq<char>>((states, metrics))
            && #[trigger] answers_surrogate(found, requested, unique, states);
    lemma_work_counted(runs, UuidIndexKind::Node, true, requested, unique, states, metrics);
}

/// Whether a run says that a requested node is live, and does not pair it with its
/// surrogate.
pub open spec fn unpaired(run: RunModel, record: Identity, requested: Seq<u128>) -> bool {
    &&& run.identity_records().contains(record)
    &&& requested.contains(record.uuid)
    &&& !scan::<NodeSurrogate>(run.node_surrogates).0.contains(
        NodeSurrogate { surrogate: record.surrogate, uuid: record.uuid },
    )
}

proof fn lemma_pair_of(
    unique: Seq<u128>,
    before: Seq<Option<IdentityState>>,
    after: Seq<Option<IdentityState>>,
    n: int,
    k: int,
) -> (i: int)
    requires
        0 <= n <= unique.len(),
        0 <= k < new_pairs(unique, before, after, n).len(),
    ensures
        0 <= i < n,
        newly_live(before, after, i),
        new_pairs(unique, before, after, n)[k] == (NodeSurrogate {
            surrogate: after[i]->0.surrogate,
            uuid: unique[i],
        }),
    decreases n,
{
    let rest = new_pairs(unique, before, after, n - 1);
    if k < rest.len() {
        lemma_pair_of(unique, before, after, n - 1, k)
    } else {
        n - 1
    }
}

proof fn lemma_state_record(records: Seq<Identity>, kind: UuidIndexKind, uuid: u128)
    requires
        state_in(records, kind, uuid) is Some,
    ensures
        exists|record: Identity| #[trigger]
            records.contains(record) && record.uuid == uuid && record.surrogate == state_in(
                records,
                kind,
                uuid,
            )->0.surrogate && (state_in(records, kind, uuid)->0.present ==> record.kind == live_kind(
                kind,
            )),
    decreases records.len(),
{
    let last = records.last();
    if speaks_of(last, kind, uuid) {
        assert(records.contains(records[records.len() - 1]));
    } else {
        let head = records.drop_last();
        lemma_state_record(head, kind, uuid);
        let record = choose|record: Identity| #[trigger]
            head.contains(record) && record.uuid == uuid && record.surrogate == state_in(
                head,
                kind,
                uuid,
            )->0.surrogate && (state_in(head, kind, uuid)->0.present ==> record.kind == live_kind(
                kind,
            ));
        let k = head.index_of(record);
        assert(records[k] == record);
        assert(records.contains(record));
    }
}

proof fn lemma_run_unpaired(
    run: RunModel,
    kind: UuidIndexKind,
    unique: Seq<u128>,
    states: Seq<Option<IdentityState>>,
    metrics: UuidProbeMetrics,
)
    requires
        run.authentic(),
        states.len() == unique.len(),
        probe_run(run, kind, true, unique, states, metrics) is Err,
    ensures
        exists|record: Identity| #[trigger]
            unpaired(run, record, unique) && record.kind == live_kind(kind),
{
    let keys = unresolved(unique, states);
    let blocks = run.run.identities.blocks;
    lemma_fence_selection::<Identity>(run.identities, run.run.identities, keys);
    let items = wanted_items::<Identity>(run.identities, blocks, keys);
    let after = resolved(unique, states, items, kind);
    let pairs = new_pairs(unique, states, after, unique.len() as int);
    let wanted = pair_keys(pairs);
    lemma_fence_selection::<NodeSurrogate>(run.node_surrogates, run.run.node_surrogates, wanted);
    let held = wanted_items::<NodeSurrogate>(
        run.node_surrogates,
        run.run.node_surrogates.blocks,
        wanted,
    );
    let k = choose|k: int| 0 <= k < pairs.len() && !held.contains(#[trigger] pairs[k]);
    let i = lemma_pair_of(unique, states, after, unique.len() as int, k);
    assert(after[i] == state_in(items, kind, unique[i]));
    lemma_state_record(items, kind, unique[i]);
    let record = choose|record: Identity| #[trigger]
        items.contains(record) && record.uuid == unique[i] && record.surrogate == state_in(
            items,
            kind,
            unique[i],
        )->0.surrogate && (state_in(items, kind, unique[i])->0.present ==> record.kind
            == live_kind(kind));
    assert(unique.contains(unique[i]));
    if scan::<NodeSurrogate>(run.node_surrogates).0.contains(pairs[k]) {
        assert(pairs[k].key() == wanted[k]);
    }
    assert(unpaired(run, record, unique));
}

proof fn lemma_walk_unpaired(
    runs: Seq<RunModel>,
    kind: UuidIndexKind,
    unique: Seq<u128>,
    states: Seq<Option<IdentityState>>,
    metrics: UuidProbeMetrics,
)
    requires
        all_authentic(runs),
        states.len() == unique.len(),
        probe_walk(runs, kind, true, unique, states, metrics) is Err,
    ensures
        exists|r: int, record: Identity|
            0 <= r < runs.len() && #[trigger] unpaired(runs[r], record, unique) && record.kind
                == live_kind(kind),
    decreases runs.len(),
{
    let last = runs.len() - 1;
    let run = runs[last];
    assert(run.authentic());
    match probe_run(run, kind, true, unique, states, metrics) {
        Err(_) => {
            lemma_run_unpaired(run, kind, unique, states, metrics);
            let record = choose|record: Identity| #[trigger]
                unpaired(run, record, unique) && record.kind == live_kind(kind);
            assert(unpaired(runs[last], record, unique));
        },
        Ok((next, work)) => {
            let rest = runs.drop_last();
            assert forall|i: int| 0 <= i < rest.len() implies (#[trigger] rest[i]).authentic() by {
                assert(runs[i].authentic());
            }
            lemma_walk_unpaired(rest, kind, unique, next, work);
            let (r, record) = choose|r: int, record: Identity|
                0 <= r < rest.len() && #[trigger] unpaired(rest[r], record, unique) && record.kind
                    == live_kind(kind);
            assert(unpaired(runs[r], record, unique));
        },
    }
}

/// A lookup in an authentic index is refused only where a run says that a requested
/// node is live and does not pair it with its surrogate.
pub proof fn lemma_lookup_refused(runs: Seq<RunModel>, requested: Seq<u128>, error: GfError)
    requires
        all_authentic(runs),
        probe_failed(runs, UuidIndexKind::Node, true, requested, error),
    ensures
        exists|r: int, record: Identity|
            0 <= r < runs.len() && #[trigger] unpaired(runs[r], record, requested) && record.kind
                == 0,
{
    let unique = choose|unique: Seq<u128>| #[trigger]
        is_distinct(unique, requested) && walk_fails(
            probe_walk(
                runs,
                UuidIndexKind::Node,
                true,
                unique,
                open_states(unique.len()),
                start_metrics(requested.len() as u64, unique.len() as u64),
            ),
            error,
        );
    let none = open_states(unique.len());
    let start = start_metrics(requested.len() as u64, unique.len() as u64);
    lemma_walk_unpaired(runs, UuidIndexKind::Node, unique, none, start);
    let (r, record) = choose|r: int, record: Identity|
        0 <= r < runs.len() && #[trigger] unpaired(runs[r], record, unique) && record.kind
            == live_kind(UuidIndexKind::Node);
    assert(unique.contains(record.uuid));
    assert(unpaired(runs[r], record, requested));
}

/// The records of a kind.
pub open spec fn of_kind(records: Seq<Identity>, kind: u8) -> Seq<Identity> {
    records.filter(|record: Identity| record.kind == kind)
}

/// The records of a kind are as many as are counted.
pub proof fn lemma_kind_counted(records: Seq<Identity>, kind: u8)
    ensures
        kind_count(records, kind) == of_kind(records, kind).len(),
    decreases records.len(),
{
    reveal(Seq::filter);
    if records.len() > 0 {
        lemma_kind_counted(records.drop_last(), kind);
    }
}

/// Whether the files of a run are what its record says, and hold as many records of
/// each kind, and one surrogate for each node, live or deleted.
pub open spec fn run_matches(run: RunView, contents: RunContents) -> bool {
    let records = scan::<Identity>(contents.identities@).0;
    &&& matches_record::<Identity>(contents.identities@, run.identities)
    &&& matches_record::<NodeSurrogate>(contents.node_surrogates@, run.node_surrogates)
    &&& run.node_count == of_kind(records, 0).len()
    &&& run.edge_count == of_kind(records, 1).len()
    &&& run.deleted_node_count == of_kind(records, 2).len()
    &&& run.deleted_edge_count == of_kind(records, 3).len()
    &&& scan::<NodeSurrogate>(contents.node_surrogates@).0.len() == of_kind(records, 0).len()
        + of_kind(records, 2).len()
}

/// Nothing is wrong with a run exactly where its files are what its record says.
pub proof fn lemma_run_matches(run: RunView, contents: RunContents)
    ensures
        run_fault(joined(run, contents)) is None <==> run_matches(run, contents),
{
    let model = joined(run, contents);
    let records = model.identity_records();
    lemma_kind_counted(records, 0);
    lemma_kind_counted(records, 1);
    lemma_kind_counted(records, 2);
    lemma_kind_counted(records, 3);
    if model.authentic() {
        lemma_described_matches::<Identity>(contents.identities@, run.identities);
        lemma_described_matches::<NodeSurrogate>(contents.node_surrogates@, run.node_surrogates);
    }
    if run_matches(run, contents) {
        lemma_matches_described::<Identity>(contents.identities@, run.identities);
        lemma_matches_described::<NodeSurrogate>(contents.node_surrogates@, run.node_surrogates);
    }
}

/// Whether a run starts in the generation after the one that the run before it ends
/// with, and does not end before it starts.
pub open spec fn continues(manifest: ManifestView, i: int) -> bool {
    let run = manifest.runs[i];
    &&& run.first_generation <= run.last_generation
    &&& run.first_generation == if i == 0 {
        0
    } else {
        manifest.runs[i - 1].last_generation + 1
    }
    &&& run.base <==> i == 0
}

proof fn lemma_runs_continue(manifest: ManifestView)
    ensures
        descriptors_valid(manifest) <==> {
            &&& manifest.runs.len() > 0
            &&& manifest.runs[0].last_generation == manifest.base_generation
            &&& manifest.runs.last().last_generation == manifest.current_generation
            &&& forall|i: int| 0 <= i < manifest.runs.len() ==> #[trigger] continues(manifest, i)
        },
{
    let runs = manifest.runs;
    if descriptors_valid(manifest) {
        assert(link_at(manifest, runs.len() - 1));
        assert forall|i: int| 0 <= i < runs.len() implies #[trigger] continues(manifest, i) by {
            assert(link_at(manifest, i));
            if i > 0 {
                assert(link_at(manifest, i - 1));
                assert(!runs[i].base);
            }
        }
    }
    if runs.len() > 0 && runs[0].last_generation == manifest.base_generation
        && runs.last().last_generation == manifest.current_generation && forall|i: int|
        0 <= i < runs.len() ==> #[trigger] continues(manifest, i) {
        assert(continues(manifest, 0));
        assert forall|i: int| 0 <= i < runs.len() implies #[trigger] link_at(manifest, i) by {
            assert(continues(manifest, i));
            if i + 1 < runs.len() {
                assert(continues(manifest, i + 1));
            }
        }
        assert forall|i: int| 1 <= i < runs.len() implies !(#[trigger] runs[i]).base by {
            assert(continues(manifest, i));
        }
    }
}

/// An index opens exactly where its manifest is one of the wanted generation whose
/// runs follow one another from the first generation to it, and every file of every
/// run is what its record says.
pub proof fn lemma_index_opens(
    manifest: ManifestView,
    generation: u64,
    contents: Seq<RunContents>,
)
    ensures
        (open_fault(manifest, generation, contents.len()) is None && forall|i: int|
            0 <= i < joined_runs(manifest, contents).len() ==> run_fault(
                #[trigger] joined_runs(manifest, contents)[i],
            ) is None) <==> {
            &&& manifest.format_version == FORMAT_VERSION
            &&& manifest.current_generation == generation
            &&& manifest.runs.len() > 0
            &&& manifest.runs.len() == contents.len()
            &&& manifest.runs[0].last_generation == manifest.base_generation
            &&& manifest.runs.last().last_generation == generation
            &&& forall|i: int| 0 <= i < manifest.runs.len() ==> #[trigger] continues(manifest, i)
            &&& forall|i: int|
                0 <= i < manifest.runs.len() ==> run_matches(
                    #[trigger] manifest.runs[i],
                    contents[i],
                )
        },
{
    let runs = joined_runs(manifest, contents);
    lemma_runs_continue(manifest);
    assert forall|i: int| 0 <= i < manifest.runs.len() implies (run_fault(#[trigger] runs[i])
        is None <==> run_matches(manifest.runs[i], contents[i])) by {
        lemma_run_matches(manifest.runs[i], contents[i]);
    }
    if forall|i: int|
        0 <= i < manifest.runs.len() ==> run_matches(#[trigger] manifest.runs[i], contents[i]) {
        assert forall|i: int| 0 <= i < runs.len() implies run_fault(#[trigger] runs[i]) is None by {
            assert(run_matches(manifest.runs[i], contents[i]));
        }
    }
    if forall|i: int| 0 <= i < runs.len() ==> run_fault(#[trigger] runs[i]) is None {
        assert forall|i: int| 0 <= i < manifest.runs.len() implies run_matches(
            #[trigger] manifest.runs[i],
            contents[i],
        ) by {
            assert(run_fault(runs[i]) is None);
        }
    }
}

} // verus!
