//! What the forward runs say of each UUID, through deltas and merges.
use vstd::prelude::*;

use crate::framing::{lemma_scan_packed, pack, scan};
use crate::keyed::{is_union, lemma_key_order, lemma_push_contains};
use crate::ordinal_artifacts::tombstones_view;
use crate::ordinal_compaction::{
    carried, carry_needed, carry_once, CarryState, first_consumed, forward_intervals, forward_merge,
    lemma_intervals_contiguous, lemma_prefix, merged_records, no_compaction_work, planned,
};
use crate::ordinal_construction::{
    BundleModel, forward_stream, forward_view, fresh_writer, ordinal_stream, stream_outcome,
    WriterModel,
};
use crate::ordinal_delta::{
    all_names, delta_outcome, DeltaInput, extended, named_files, names_of, PlannedV4OrdinalDelta,
    publishes, shared_names,
};
use crate::ordinal_format::{
    ArtifactFileView, ArtifactView, installed, manifest_artifacts, named, OrdinalManifestView,
    views,
};
use crate::ordinal_history::{
    consistent, lemma_carried_prefix, lemma_distinct_keys, lemma_held_reordered, lemma_keeps_parts,
    lemma_named_held, lemma_reads_kept, lemma_step_prefix, merge_start, next_store, prior_store,
    published_store, Store, tombstone_write,
};
use crate::ordinal_manifest::V4OrdinalBounds;
use crate::ordinal_publication::{inputs_outcome, merged_outcome, since};
use crate::records::{ForwardRecord, NodeSurrogate};

verus! {

/// Whether a forward run holds a mapping.
pub open spec fn leads(run: ArtifactView, store: Store, mapping: ForwardRecord) -> bool {
    match store.reads(run.name) {
        Some(content) => scan::<ForwardRecord>(content).0.contains(mapping),
        None => false,
    }
}

/// Whether some forward run holds a mapping.
pub open spec fn led(runs: Seq<ArtifactView>, store: Store, mapping: ForwardRecord) -> bool {
    exists|i: int| 0 <= i < runs.len() && leads(#[trigger] runs[i], store, mapping)
}

/// Whether each forward run can be read.
pub open spec fn all_readable(runs: Seq<ArtifactView>, store: Store) -> bool {
    forall|i: int| 0 <= i < runs.len() ==> store.reads((#[trigger] runs[i]).name) is Some
}

/// The file of a forward run.
pub open spec fn forward_write(mappings: Seq<ForwardRecord>, generation: u64) -> ArtifactFileView {
    ArtifactFileView { descriptor: forward_view(mappings, generation), bytes: pack(mappings) }
}

/// The mappings of the two newest runs, merged.
pub open spec fn newest_merged(before: CarryState, pinned: Seq<ArtifactFileView>) -> Seq<
    ForwardRecord,
> {
    let forward = before.manifest.forward;
    let n = forward.len();
    merged_records(
        planned(before.files, pinned, forward[n - 2].name)->0,
        planned(before.files, pinned, forward[n - 1].name)->0,
    )->Ok_0
}

/// The files of forward runs that a compaction writes.
pub open spec fn forward_writes(before: CarryState, pinned: Seq<ArtifactFileView>) -> Seq<
    ArtifactFileView,
>
    decreases before.manifest.forward.len(),
{
    let n = before.manifest.forward.len();
    match forward_intervals(before.manifest.forward) {
        Err(_) => Seq::empty(),
        Ok(intervals) => if !carry_needed(intervals) || n < 3 {
            Seq::empty()
        } else {
            match carry_once(before, pinned, intervals) {
                Err(_) => Seq::empty(),
                Ok(next) => seq![forward_write(newest_merged(before, pinned), intervals[n - 1].1)]
                    + forward_writes(next, pinned),
            }
        },
    }
}

proof fn lemma_front_union(
    out: Seq<ForwardRecord>,
    first: ForwardRecord,
    rest: Seq<ForwardRecord>,
    left: Seq<ForwardRecord>,
    right: Seq<ForwardRecord>,
    l: Seq<ForwardRecord>,
    r: Seq<ForwardRecord>,
)
    requires
        out == seq![first] + rest,
        is_union(rest, l, r),
        l == left || (left.len() > 0 && left[0] == first && l == left.skip(1)),
        r == right || (right.len() > 0 && right[0] == first && r == right.skip(1)),
        l != left || r != right,
    ensures
        is_union(out, left, right),
{
    assert forall|item: ForwardRecord| #[trigger] out.contains(item) <==> left.contains(item)
        || right.contains(item) by {
        if out.contains(item) {
            let k = out.index_of(item);
            if k > 0 {
                assert(rest[k - 1] == item);
                assert(rest.contains(item));
                if l.contains(item) {
                    let j = l.index_of(item);
                    assert(l == left ==> left[j] == item);
                    assert(l != left ==> left[j + 1] == item);
                } else {
                    let j = r.index_of(item);
                    assert(r == right ==> right[j] == item);
                    assert(r != right ==> right[j + 1] == item);
                }
            } else {
                assert(item == first);
                assert(l != left ==> left.contains(left[0]));
                assert(r != right ==> right.contains(right[0]));
            }
        }
        if left.contains(item) {
            let j = left.index_of(item);
            if l != left && j > 0 {
                assert(l[j - 1] == item);
            }
            assert(item != first ==> l.contains(item));
        }
        if right.contains(item) {
            let j = right.index_of(item);
            if r != right && j > 0 {
                assert(r[j - 1] == item);
            }
            assert(item != first ==> r.contains(item));
        }
        if item == first {
            assert(out[0] == item);
        } else if rest.contains(item) {
            let k = rest.index_of(item);
            assert(out[k + 1] == item);
        }
    }
}

proof fn lemma_merge_union(
    left: Seq<ForwardRecord>,
    right: Seq<ForwardRecord>,
    previous: Option<u128>,
)
    requires
        forward_merge(left, right, previous) is Ok,
    ensures
        is_union(forward_merge(left, right, previous)->Ok_0, left, right),
    decreases left.len() + right.len(),
{
    let out = forward_merge(left, right, previous)->Ok_0;
    if left.len() == 0 && right.len() == 0 {
    } else if left.len() > 0 && right.len() > 0 && left[0].uuid == right[0].uuid {
        let l = left.skip(1);
        let r = right.skip(1);
        let key = Some(right[0].uuid);
        lemma_merge_union(l, r, key);
        assert(l.len() < left.len());
        lemma_front_union(out, right[0], forward_merge(l, r, key)->Ok_0, left, right, l, r);
    } else if left.len() > 0 && (right.len() == 0 || left[0].uuid < right[0].uuid) {
        let l = left.skip(1);
        let key = Some(left[0].uuid);
        lemma_merge_union(l, right, key);
        assert(l.len() < left.len());
        lemma_front_union(out, left[0], forward_merge(l, right, key)->Ok_0, left, right, l, right);
    } else {
        let r = right.skip(1);
        let key = Some(right[0].uuid);
        lemma_merge_union(left, r, key);
        assert(r.len() < right.len());
        lemma_front_union(out, right[0], forward_merge(left, r, key)->Ok_0, left, right, left, r);
    }
}

proof fn lemma_written_leads(
    mappings: Seq<ForwardRecord>,
    generation: u64,
    store: Store,
    mapping: ForwardRecord,
)
    requires
        store.keeps(forward_write(mappings, generation)),
    ensures
        leads(forward_view(mappings, generation), store, mapping) <==> mappings.contains(mapping),
{
    lemma_scan_packed(mappings);
}

proof fn lemma_led_pushed(
    runs: Seq<ArtifactView>,
    run: ArtifactView,
    store: Store,
    mapping: ForwardRecord,
)
    ensures
        led(runs.push(run), store, mapping) <==> led(runs, store, mapping) || leads(
            run,
            store,
            mapping,
        ),
{
    let all = runs.push(run);
    if led(all, store, mapping) {
        let i = choose|i: int| 0 <= i < all.len() && leads(#[trigger] all[i], store, mapping);
        if i < runs.len() {
            assert(runs[i] == all[i]);
        }
    }
    if led(runs, store, mapping) {
        let i = choose|i: int| 0 <= i < runs.len() && leads(#[trigger] runs[i], store, mapping);
        assert(all[i] == runs[i]);
    }
    assert(all[runs.len() as int] == run);
}

/// One merge of the two newest runs leaves what the runs say.
proof fn lemma_step_leads(before: CarryState, store: Store, intervals: Seq<(u64, u64)>)
    requires
        before.manifest.forward.len() >= 3,
        forward_intervals(before.manifest.forward) == Ok::<Seq<(u64, u64)>, Seq<char>>(intervals),
        carry_once(before, store.pinned, intervals) is Ok,
        before.files.is_prefix_of(store.files),
        store.agrees(),
        store.keeps(
            forward_write(
                newest_merged(before, store.pinned),
                intervals[before.manifest.forward.len() - 1].1,
            ),
        ),
        all_readable(before.manifest.forward, store),
    ensures
        ({
            let next = carry_once(before, store.pinned, intervals)->Ok_0;
            &&& all_readable(next.manifest.forward, store)
            &&& forall|mapping: ForwardRecord| #[trigger]
                led(next.manifest.forward, store, mapping) <==> led(
                    before.manifest.forward,
                    store,
                    mapping,
                )
        }),
{
    let forward = before.manifest.forward;
    let n = forward.len() as int;
    let last = intervals[n - 1].1;
    let left = planned(before.files, store.pinned, forward[n - 2].name)->0;
    let right = planned(before.files, store.pinned, forward[n - 1].name)->0;
    let one = scan::<ForwardRecord>(left).0;
    let two = scan::<ForwardRecord>(right).0;
    let merged = newest_merged(before, store.pinned);
    let next = carry_once(before, store.pinned, intervals)->Ok_0;
    let rest = forward.take(n - 2);
    let run = forward_view(merged, last);
    lemma_merge_union(one, two, None);
    lemma_reads_kept(before.files, store, forward[n - 2].name);
    lemma_reads_kept(before.files, store, forward[n - 1].name);
    assert(next.manifest.forward == rest.push(run));
    assert forall|mapping: ForwardRecord| #[trigger]
        led(next.manifest.forward, store, mapping) <==> led(forward, store, mapping) by {
        lemma_written_leads(merged, last, store, mapping);
        lemma_led_pushed(rest, run, store, mapping);
        lemma_led_pushed(rest, forward[n - 2], store, mapping);
        lemma_led_pushed(rest.push(forward[n - 2]), forward[n - 1], store, mapping);
        assert(rest.push(forward[n - 2]).push(forward[n - 1]) =~= forward);
        assert(merged.contains(mapping) <==> one.contains(mapping) || two.contains(mapping));
    }
    assert forall|i: int| 0 <= i < next.manifest.forward.len() implies store.reads(
        (#[trigger] next.manifest.forward[i]).name,
    ) is Some by {
        if i < n - 2 {
            assert(next.manifest.forward[i] == forward[i]);
        }
    }
}

/// A compaction keeps what the forward runs say.
proof fn lemma_carried_leads(before: CarryState, store: Store)
    requires
        carried(before, store.pinned) is Ok,
        carried(before, store.pinned)->Ok_0.files.is_prefix_of(store.files),
        store.agrees(),
        store.keeps_all(forward_writes(before, store.pinned)),
        all_readable(before.manifest.forward, store),
    ensures
        ({
            let done = carried(before, store.pinned)->Ok_0;
            &&& all_readable(done.manifest.forward, store)
            &&& forall|mapping: ForwardRecord| #[trigger]
                led(done.manifest.forward, store, mapping) <==> led(
                    before.manifest.forward,
                    store,
                    mapping,
                )
        }),
    decreases before.manifest.forward.len(),
{
    let forward = before.manifest.forward;
    let n = forward.len() as int;
    let intervals = forward_intervals(forward)->Ok_0;
    if carry_needed(intervals) && n >= 3 {
        let next = carry_once(before, store.pinned, intervals)->Ok_0;
        let done = carried(before, store.pinned)->Ok_0;
        let file = forward_write(newest_merged(before, store.pinned), intervals[n - 1].1);
        lemma_keeps_parts(store, seq![file], forward_writes(next, store.pinned));
        assert(store.keeps(seq![file][0]));
        lemma_step_prefix(before, store.pinned, intervals);
        lemma_carried_prefix(next, store.pinned);
        lemma_prefix(next.files, done.files, store.files);
        lemma_prefix(before.files, next.files, store.files);
        lemma_step_leads(before, store, intervals);
        lemma_carried_leads(next, store);
        assert forall|mapping: ForwardRecord| #[trigger]
            led(done.manifest.forward, store, mapping) <==> led(forward, store, mapping) by {
            assert(led(next.manifest.forward, store, mapping) <==> led(forward, store, mapping));
        }
    }
}

proof fn lemma_forward_gathered(before: WriterModel, records: Seq<ForwardRecord>)
    requires
        forward_stream(before, records) is Ok,
    ensures
        forward_stream(before, records)->Ok_0.forward == before.forward + records,
        forward_stream(before, records)->Ok_0.generation == before.generation,
    decreases records.len(),
{
    if records.len() > 0 {
        lemma_forward_gathered(before, records.drop_last());
        assert(before.forward + records =~= (before.forward + records.drop_last()).push(
            records.last(),
        ));
    } else {
        assert(before.forward + records =~= before.forward);
    }
}

proof fn lemma_ordinals_leave(before: WriterModel, records: Seq<NodeSurrogate>)
    requires
        ordinal_stream(before, records) is Ok,
    ensures
        ordinal_stream(before, records)->Ok_0.forward == before.forward,
        ordinal_stream(before, records)->Ok_0.generation == before.generation,
    decreases records.len(),
{
    if records.len() > 0 {
        lemma_ordinals_leave(before, records.drop_last());
    }
}

proof fn lemma_stream_forward(
    generation: u64,
    bounds: V4OrdinalBounds,
    forward: Seq<ForwardRecord>,
    ordinals: Seq<NodeSurrogate>,
)
    requires
        stream_outcome(generation, bounds, forward, ordinals) is Ok,
    ensures
        stream_outcome(generation, bounds, forward, ordinals)->Ok_0.manifest.forward == seq![
            forward_view(forward, generation),
        ],
{
    let fresh = fresh_writer(generation, bounds);
    lemma_forward_gathered(fresh, forward);
    let next = forward_stream(fresh, forward)->Ok_0;
    lemma_ordinals_leave(next, ordinals);
    assert(fresh.forward + forward =~= forward);
}

/// What a delta's compaction starts from.
pub open spec fn delta_start(input: DeltaInput) -> CarryState {
    let bundle = stream_outcome(
        input.generation,
        input.bounds,
        input.forward(),
        input.ordinals(),
    )->Ok_0;
    CarryState {
        manifest: extended(
            input.manifest,
            bundle.manifest,
            tombstones_view(input.tombstones(), input.generation),
            input.generation,
        ),
        files: installed(bundle.files, tombstone_write(input.tombstones(), input.generation)),
        work: no_compaction_work(),
    }
}

/// The files of forward runs that a delta writes.
pub open spec fn delta_forward_writes(input: DeltaInput) -> Seq<ArtifactFileView> {
    seq![forward_write(input.forward(), input.generation)] + forward_writes(
        delta_start(input),
        input.pinned,
    )
}

/// What is written is what is looked up: after a delta the forward runs lead from
/// each new UUID to its node, and from every other UUID to where they led before,
/// whatever runs are merged. The new runs can be extended in turn. This holds as
/// long as no two files of one name differ.
pub proof fn lemma_forward_read_back(input: DeltaInput)
    requires
        delta_outcome(input) is Ok,
        all_readable(input.manifest.forward, prior_store(input)),
        next_store(input).agrees(),
        next_store(input).keeps_all(delta_forward_writes(input)),
    ensures
        ({
            let next = delta_outcome(input)->Ok_0.manifest;
            let store = next_store(input);
            &&& all_readable(next.forward, store)
            &&& forall|mapping: ForwardRecord| #[trigger]
                led(next.forward, store, mapping) <==> led(
                    input.manifest.forward,
                    prior_store(input),
                    mapping,
                ) || input.nodes.contains(mapping)
        }),
{
    let store = next_store(input);
    let prior = prior_store(input);
    let old = input.manifest.forward;
    let generation = input.generation;
    let fresh = input.forward();
    let state = delta_start(input);
    let done = carried(state, input.pinned)->Ok_0;
    let run = forward_view(fresh, generation);
    let file = forward_write(fresh, generation);
    lemma_stream_forward(generation, input.bounds, fresh, input.ordinals());
    lemma_keeps_parts(store, seq![file], forward_writes(state, input.pinned));
    assert(store.keeps(seq![file][0]));
    assert(state.manifest.forward =~= old.push(run));
    let none = Seq::<ArtifactFileView>::empty();
    assert(none =~= store.files.subrange(0, 0));
    assert forall|i: int| 0 <= i < old.len() implies store.reads((#[trigger] old[i]).name)
        == prior.reads(old[i].name) && prior.reads(old[i].name) is Some by {
        lemma_reads_kept(none, store, old[i].name);
    }
    assert(all_readable(state.manifest.forward, store)) by {
        let runs = state.manifest.forward;
        assert forall|i: int| 0 <= i < runs.len() implies store.reads((#[trigger] runs[i]).name)
            is Some by {
            if i < old.len() {
                assert(runs[i] == old[i]);
            }
        }
    }
    assert(done.files =~= store.files.subrange(0, store.files.len() as int));
    lemma_carried_leads(state, store);
    lemma_distinct_keys(input.nodes);
    lemma_key_order(input.nodes);
    assert forall|mapping: ForwardRecord| #[trigger]
        led(done.manifest.forward, store, mapping) <==> led(old, prior, mapping)
            || input.nodes.contains(mapping) by {
        lemma_led_pushed(old, run, store, mapping);
        lemma_written_leads(fresh, generation, store, mapping);
        assert(led(state.manifest.forward, store, mapping) <==> led(
            done.manifest.forward,
            store,
            mapping,
        ));
        assert(fresh.contains(mapping) == input.nodes.contains(mapping));
        if led(old, store, mapping) {
            let i = choose|i: int| 0 <= i < old.len() && leads(#[trigger] old[i], store, mapping);
            assert(leads(old[i], prior, mapping));
        }
        if led(old, prior, mapping) {
            let i = choose|i: int| 0 <= i < old.len() && leads(#[trigger] old[i], prior, mapping);
            assert(leads(old[i], store, mapping));
        }
    }
}

/// What a delta publishes leads as what it plans: from each new UUID to its node,
/// and from every other UUID to where the forward runs led before.
pub proof fn lemma_forward_published(planned: PlannedV4OrdinalDelta, input: DeltaInput)
    requires
        delta_outcome(input) is Ok,
        publishes(planned, delta_outcome(input)->Ok_0, input),
        consistent(views(planned.outputs@)),
        all_readable(input.manifest.forward, prior_store(input)),
        next_store(input).agrees(),
        next_store(input).keeps_all(delta_forward_writes(input)),
    ensures
        ({
            let next = planned.manifest@;
            let store = published_store(planned, input);
            &&& all_readable(next.forward, store)
            &&& forall|mapping: ForwardRecord| #[trigger]
                led(next.forward, store, mapping) <==> led(
                    input.manifest.forward,
                    prior_store(input),
                    mapping,
                ) || input.nodes.contains(mapping)
        }),
{
    lemma_forward_read_back(input);
    let model = delta_outcome(input)->Ok_0;
    let next = model.manifest;
    let artifacts = manifest_artifacts(next);
    let published = published_store(planned, input);
    let store = next_store(input);
    let outputs = views(planned.outputs@);
    let runs = next.forward;
    assert forall|i: int| 0 <= i < runs.len() implies published.reads((#[trigger] runs[i]).name)
        == store.reads(runs[i].name) by {
        assert(artifacts[i] == runs[i]);
        lemma_named_held(model.files, artifacts, runs[i].name);
        lemma_held_reordered(outputs, named_files(model.files, artifacts), runs[i].name);
    }
    assert forall|i: int| 0 <= i < runs.len() implies published.reads((#[trigger] runs[i]).name)
        is Some by {
        assert(store.reads(runs[i].name) is Some);
    }
    assert forall|mapping: ForwardRecord| #[trigger]
        led(runs, published, mapping) <==> led(
            input.manifest.forward,
            prior_store(input),
            mapping,
        ) || input.nodes.contains(mapping) by {
        assert(led(runs, store, mapping) <==> led(
            input.manifest.forward,
            prior_store(input),
            mapping,
        ) || input.nodes.contains(mapping));
        if led(runs, store, mapping) {
            let i = choose|i: int| 0 <= i < runs.len() && leads(#[trigger] runs[i], store, mapping);
            assert(leads(runs[i], published, mapping));
        }
        if led(runs, published, mapping) {
            let i = choose|i: int|
                0 <= i < runs.len() && leads(#[trigger] runs[i], published, mapping);
            assert(leads(runs[i], store, mapping));
        }
    }
}

/// A published construction leads from each UUID to where its parent and the
/// constructed artifacts lead together, whatever runs are merged, as long as no two
/// files of one name differ.
pub proof fn lemma_forward_merged(
    prior: OrdinalManifestView,
    bundle: BundleModel,
    pinned: Seq<ArtifactFileView>,
    authenticated: (u64, u64),
    maximum: u64,
    cancelled: Option<u64>,
)
    requires
        merged_outcome(prior, bundle, pinned, authenticated, maximum, cancelled) is Ok,
        all_readable(
            prior.forward + bundle.manifest.forward,
            (Store { files: bundle.files, pinned }),
        ),
        (Store {
            files: carried(merge_start(prior, bundle), pinned)->Ok_0.files,
            pinned,
        }).agrees(),
        (Store {
            files: carried(merge_start(prior, bundle), pinned)->Ok_0.files,
            pinned,
        }).keeps_all(forward_writes(merge_start(prior, bundle), pinned)),
    ensures
        ({
            let start = Store { files: bundle.files, pinned };
            let merged = merged_outcome(
                prior,
                bundle,
                pinned,
                authenticated,
                maximum,
                cancelled,
            )->Ok_0;
            let published = Store { files: merged.files, pinned };
            &&& all_readable(merged.manifest.forward, published)
            &&& forall|mapping: ForwardRecord| #[trigger]
                led(merged.manifest.forward, published, mapping) <==> led(
                    prior.forward + bundle.manifest.forward,
                    start,
                    mapping,
                )
        }),
{
    let start = Store { files: bundle.files, pinned };
    let state = merge_start(prior, bundle);
    let done = carried(state, pinned)->Ok_0;
    let store = Store { files: done.files, pinned };
    let merged = merged_outcome(prior, bundle, pinned, authenticated, maximum, cancelled)->Ok_0;
    let published = Store { files: merged.files, pinned };
    let runs = done.manifest.forward;
    let first = state.manifest.forward;
    let artifacts = manifest_artifacts(done.manifest);
    lemma_carried_prefix(state, pinned);
    assert forall|i: int| 0 <= i < first.len() implies store.reads((#[trigger] first[i]).name)
        == start.reads(first[i].name) && start.reads(first[i].name) is Some by {
        lemma_reads_kept(bundle.files, store, first[i].name);
    }
    assert(done.files =~= store.files.subrange(0, store.files.len() as int));
    lemma_carried_leads(state, store);
    assert forall|i: int| 0 <= i < runs.len() implies published.reads((#[trigger] runs[i]).name)
        == store.reads(runs[i].name) && store.reads(runs[i].name) is Some by {
        assert(artifacts[i] == runs[i]);
        lemma_named_held(done.files, artifacts, runs[i].name);
    }
    assert forall|mapping: ForwardRecord| #[trigger]
        led(runs, published, mapping) <==> led(first, start, mapping) by {
        lemma_led_alike(runs, published, store, mapping);
        lemma_led_alike(first, start, store, mapping);
        assert(led(runs, store, mapping) <==> led(first, store, mapping));
    }
}

proof fn lemma_led_alike(
    runs: Seq<ArtifactView>,
    left: Store,
    right: Store,
    mapping: ForwardRecord,
)
    requires
        forall|i: int|
            0 <= i < runs.len() ==> left.reads((#[trigger] runs[i]).name) == right.reads(
                runs[i].name,
            ),
    ensures
        led(runs, left, mapping) <==> led(runs, right, mapping),
{
    if led(runs, left, mapping) {
        let i = choose|i: int| 0 <= i < runs.len() && leads(#[trigger] runs[i], left, mapping);
        assert(leads(runs[i], right, mapping));
    }
    if led(runs, right, mapping) {
        let i = choose|i: int| 0 <= i < runs.len() && leads(#[trigger] runs[i], right, mapping);
        assert(leads(runs[i], left, mapping));
    }
}

proof fn lemma_intervals_head(forward: Seq<ArtifactView>, n: int)
    requires
        forward_intervals(forward) is Ok,
        1 <= n <= forward.len(),
    ensures
        forward_intervals(forward.take(n)) == Ok::<Seq<(u64, u64)>, Seq<char>>(
            forward_intervals(forward)->Ok_0.take(n),
        ),
    decreases forward.len(),
{
    lemma_intervals_contiguous(forward);
    let intervals = forward_intervals(forward)->Ok_0;
    if n == forward.len() {
        assert(forward.take(n) =~= forward);
        assert(intervals.take(n) =~= intervals);
    } else {
        let head = forward.drop_last();
        lemma_intervals_head(head, n);
        lemma_intervals_contiguous(head);
        assert(head.take(n) =~= forward.take(n));
        assert(forward_intervals(head)->Ok_0.take(n) =~= intervals.take(n));
    }
}

proof fn lemma_intervals_merged(forward: Seq<ArtifactView>, run: ArtifactView)
    requires
        forward_intervals(forward) is Ok,
        forward.len() >= 3,
        run.generation == forward.last().generation,
    ensures
        ({
            let n = forward.len() as int;
            let intervals = forward_intervals(forward)->Ok_0;
            forward_intervals(forward.take(n - 2).push(run)) == Ok::<Seq<(u64, u64)>, Seq<char>>(
                intervals.take(n - 2).push((intervals[n - 2].0, intervals[n - 1].1)),
            )
        }),
{
    let n = forward.len() as int;
    let intervals = forward_intervals(forward)->Ok_0;
    lemma_intervals_contiguous(forward);
    lemma_intervals_head(forward, n - 2);
    let next = forward.take(n - 2).push(run);
    assert(next.drop_last() =~= forward.take(n - 2));
    assert(next[next.len() - 2] == forward[n - 3]);
    assert(intervals[n - 3].1 == forward[n - 3].generation);
    assert(intervals[n - 2].0 == intervals[n - 3].1 + 1);
    assert(intervals[n - 1].0 == intervals[n - 2].1 + 1);
}

/// A compaction keeps the runs in front of the first generation that it consumes as
/// they are, and merges all runs from that one on into one.
proof fn lemma_consumed(before: CarryState, pinned: Seq<ArtifactFileView>, found: Option<u64>)
    requires
        carried(before, pinned) is Ok,
    ensures
        ({
            let forward = before.manifest.forward;
            let after = carried(before, pinned)->Ok_0.manifest.forward;
            let intervals = forward_intervals(forward)->Ok_0;
            let kept = after.len() - 1;
            &&& 1 <= after.len() <= forward.len()
            &&& after.len() == forward.len() ==> after == forward && first_consumed(
                intervals,
                found,
            ) == found
            &&& after.len() < forward.len() ==> 1 <= kept && after.take(kept) == forward.take(kept)
                && first_consumed(intervals, found) == Some(intervals[kept].0)
        }),
    decreases before.manifest.forward.len(),
{
    let forward = before.manifest.forward;
    let n = forward.len() as int;
    let intervals = forward_intervals(forward)->Ok_0;
    lemma_intervals_contiguous(forward);
    if carry_needed(intervals) && n >= 3 {
        let next = carry_once(before, pinned, intervals)->Ok_0;
        let after = carried(before, pinned)->Ok_0.manifest.forward;
        let rest = next.manifest.forward;
        let kept = after.len() - 1;
        lemma_intervals_merged(forward, rest.last());
        lemma_consumed(next, pinned, Some(intervals[n - 2].0));
        assert(rest =~= forward.take(n - 2).push(rest.last()));
        if after.len() == rest.len() {
            assert(after.take(kept) =~= forward.take(kept));
        } else {
            assert(rest.take(kept) =~= forward.take(kept));
        }
    }
}

/// How many generations a delta run covers: those after the run in front of it.
pub open spec fn covered(runs: Seq<ArtifactView>, i: int) -> int {
    runs[i].generation - runs[i - 1].generation
}

/// Whether the two newest runs are delta runs that cover equally many generations.
pub open spec fn newest_even(runs: Seq<ArtifactView>) -> bool {
    runs.len() >= 3 && covered(runs, runs.len() - 2) == covered(runs, runs.len() - 1)
}

/// A compaction merges exactly as long as the two newest delta runs cover equally many
/// generations: where they do not, it changes nothing, and afterwards they do not.
pub proof fn lemma_carry_settles(before: CarryState, pinned: Seq<ArtifactFileView>)
    requires
        carried(before, pinned) is Ok,
    ensures
        ({
            let after = carried(before, pinned)->Ok_0;
            &&& !newest_even(before.manifest.forward) ==> after == before
            &&& newest_even(before.manifest.forward) ==> after.manifest.forward.len()
                < before.manifest.forward.len()
            &&& !newest_even(after.manifest.forward)
        }),
    decreases before.manifest.forward.len(),
{
    let forward = before.manifest.forward;
    let n = forward.len() as int;
    let intervals = forward_intervals(forward)->Ok_0;
    lemma_intervals_contiguous(forward);
    if n >= 3 {
        assert(intervals[n - 1].0 == intervals[n - 2].1 + 1);
        assert(intervals[n - 2].0 == intervals[n - 3].1 + 1);
        assert(intervals[n - 1].1 == forward[n - 1].generation);
        assert(intervals[n - 2].1 == forward[n - 2].generation);
        assert(intervals[n - 3].1 == forward[n - 3].generation);
        if carry_needed(intervals) {
            let next = carry_once(before, pinned, intervals)->Ok_0;
            assert(next.manifest.forward.len() < forward.len());
            lemma_carry_settles(next, pinned);
            lemma_consumed(next, pinned, None);
        }
    }
}

proof fn lemma_since(artifacts: Seq<ArtifactView>, first: Option<u64>, artifact: ArtifactView)
    ensures
        since(artifacts, first).contains(artifact) <==> artifacts.contains(artifact) && first is Some
            && artifact.generation >= first->0,
    decreases artifacts.len(),
{
    if artifacts.len() > 0 {
        let head = artifacts.drop_last();
        lemma_since(head, first, artifact);
        lemma_push_contains(head, artifacts.last());
        lemma_push_contains(since(head, first), artifacts.last());
        assert(artifacts =~= head.push(artifacts.last()));
    }
}

/// What is read of a parent is what its merge needs: where runs are merged, every
/// artifact of the parent that is later than the last run that stays, and no other.
pub proof fn lemma_inputs_needed(
    prior: OrdinalManifestView,
    bundle: BundleModel,
    pinned: Seq<ArtifactFileView>,
)
    requires
        inputs_outcome(prior, bundle.manifest) is Ok,
        carried(merge_start(prior, bundle), pinned) is Ok,
    ensures
        ({
            let inputs = inputs_outcome(prior, bundle.manifest)->Ok_0;
            let before = prior.forward + bundle.manifest.forward;
            let after = carried(merge_start(prior, bundle), pinned)->Ok_0.manifest.forward;
            &&& after.len() == before.len() ==> after == before
            &&& after.len() < before.len() ==> after.len() >= 2 && after.drop_last() == before.take(
                after.len() - 1,
            )
            &&& forall|artifact: ArtifactView| #[trigger]
                inputs.contains(artifact) <==> manifest_artifacts(prior).contains(artifact)
                    && after.len() < before.len() && artifact.generation > after[after.len()
                    - 2].generation
        }),
{
    let state = merge_start(prior, bundle);
    let before = state.manifest.forward;
    let after = carried(state, pinned)->Ok_0.manifest.forward;
    let intervals = forward_intervals(before)->Ok_0;
    let first = first_consumed(intervals, None);
    lemma_consumed(state, pinned, None);
    lemma_intervals_contiguous(before);
    if after.len() < before.len() {
        let kept = after.len() - 1;
        assert(after.drop_last() =~= after.take(kept));
        assert(after[kept - 1] == after.take(kept)[kept - 1]);
        assert(before[kept - 1] == before.take(kept)[kept - 1]);
        assert(intervals[kept].0 == intervals[kept - 1].1 + 1);
        assert(intervals[kept - 1].1 == before[kept - 1].generation);
    }
    assert forall|artifact: ArtifactView| #[trigger]
        inputs_outcome(prior, bundle.manifest)->Ok_0.contains(artifact) <==> manifest_artifacts(
            prior,
        ).contains(artifact) && after.len() < before.len() && artifact.generation > after[
            after.len() - 2].generation by {
        lemma_since(manifest_artifacts(prior), first, artifact);
    }
}

/// The names of some artifacts.
pub open spec fn name_set(artifacts: Seq<ArtifactView>) -> Set<Seq<char>> {
    Set::new(
        |name: Seq<char>|
            exists|i: int| 0 <= i < artifacts.len() && (#[trigger] artifacts[i]).name == name,
    )
}

/// The names of the artifacts of one generation.
pub open spec fn names_in(artifacts: Seq<ArtifactView>, generation: u64) -> Set<Seq<char>> {
    Set::new(
        |name: Seq<char>|
            exists|i: int|
                0 <= i < artifacts.len() && (#[trigger] artifacts[i]).name == name
                    && artifacts[i].generation == generation,
    )
}

proof fn lemma_names_once(artifacts: Seq<ArtifactView>)
    ensures
        all_names(artifacts).no_duplicates(),
        all_names(artifacts).to_set() == name_set(artifacts),
    decreases artifacts.len(),
{
    let names = all_names(artifacts);
    if artifacts.len() > 0 {
        let head = artifacts.drop_last();
        let last = artifacts.last();
        lemma_names_once(head);
        lemma_push_contains(all_names(head), last.name);
        assert forall|name: Seq<char>| #[trigger]
            name_set(artifacts).contains(name) <==> name_set(head).contains(name) || name
                == last.name by {
            if name_set(artifacts).contains(name) {
                let i = choose|i: int|
                    0 <= i < artifacts.len() && (#[trigger] artifacts[i]).name == name;
                assert(i < head.len() ==> head[i].name == name);
            }
            if name_set(head).contains(name) {
                let i = choose|i: int| 0 <= i < head.len() && (#[trigger] head[i]).name == name;
                assert(artifacts[i].name == name);
            }
            assert(artifacts[artifacts.len() - 1] == last);
        }
        assert forall|name: Seq<char>| #[trigger]
            names.to_set().contains(name) <==> name_set(artifacts).contains(name) by {
            assert(all_names(head).to_set().contains(name) <==> name_set(head).contains(name));
            assert(all_names(head).to_set().contains(last.name) <==> all_names(head).contains(
                last.name,
            ));
        }
        assert(names.to_set() =~= name_set(artifacts));
    } else {
        assert(names.to_set() =~= name_set(artifacts));
    }
}

proof fn lemma_names_of_once(artifacts: Seq<ArtifactView>, generation: u64)
    ensures
        names_of(artifacts, generation).no_duplicates(),
        names_of(artifacts, generation).to_set() == names_in(artifacts, generation),
    decreases artifacts.len(),
{
    let names = names_of(artifacts, generation);
    if artifacts.len() > 0 {
        let head = artifacts.drop_last();
        let last = artifacts.last();
        let before = names_of(head, generation);
        lemma_names_of_once(head, generation);
        lemma_push_contains(before, last.name);
        assert forall|name: Seq<char>| #[trigger]
            names_in(artifacts, generation).contains(name) <==> names_in(head, generation).contains(
                name,
            ) || (name == last.name && last.generation == generation) by {
            if names_in(artifacts, generation).contains(name) {
                let i = choose|i: int|
                    0 <= i < artifacts.len() && (#[trigger] artifacts[i]).name == name
                        && artifacts[i].generation == generation;
                assert(i < head.len() ==> head[i] == artifacts[i]);
            }
            if names_in(head, generation).contains(name) {
                let i = choose|i: int|
                    0 <= i < head.len() && (#[trigger] head[i]).name == name && head[i].generation
                        == generation;
                assert(artifacts[i] == head[i]);
            }
            assert(artifacts[artifacts.len() - 1] == last);
        }
        assert forall|name: Seq<char>| #[trigger]
            names.to_set().contains(name) <==> names_in(artifacts, generation).contains(name) by {
            assert(before.to_set().contains(name) <==> names_in(head, generation).contains(name));
            assert(before.to_set().contains(last.name) <==> before.contains(last.name));
        }
        assert(names.to_set() =~= names_in(artifacts, generation));
    } else {
        assert(names.to_set() =~= names_in(artifacts, generation));
    }
}

proof fn lemma_shared_counted(names: Seq<Seq<char>>, others: Seq<ArtifactView>)
    requires
        names.no_duplicates(),
    ensures
        names.to_set().intersect(name_set(others)).finite(),
        shared_names(names, others) == names.to_set().intersect(name_set(others)).len(),
    decreases names.len(),
{
    let all = names.to_set().intersect(name_set(others));
    if names.len() == 0 {
        assert(all =~= Set::empty());
    } else {
        let head = names.drop_last();
        let last = names.last();
        lemma_shared_counted(head, others);
        lemma_push_contains(head, last);
        assert(names =~= head.push(last));
        let before = head.to_set().intersect(name_set(others));
        assert(!head.contains(last));
        assert(named(others, last) <==> name_set(others).contains(last));
        if named(others, last) {
            assert(all =~= before.insert(last));
        } else {
            assert(all =~= before);
        }
    }
}

/// A planned delta counts its artifacts by their names: those of its own
/// generation, and those that the next inventory has from the one before.
pub proof fn lemma_artifacts_counted(planned: PlannedV4OrdinalDelta, input: DeltaInput)
    requires
        delta_outcome(input) is Ok,
        publishes(planned, delta_outcome(input)->Ok_0, input),
    ensures
        planned.retained_artifacts == name_set(manifest_artifacts(planned.manifest@)).intersect(
            name_set(manifest_artifacts(input.manifest)),
        ).len(),
        planned.delta_artifacts == names_in(
            manifest_artifacts(delta_start(input).manifest),
            input.generation,
        ).len(),
{
    let model = delta_outcome(input)->Ok_0;
    let names = all_names(manifest_artifacts(model.manifest));
    let own = names_of(manifest_artifacts(delta_start(input).manifest), input.generation);
    lemma_names_once(manifest_artifacts(model.manifest));
    lemma_shared_counted(names, manifest_artifacts(input.manifest));
    lemma_names_of_once(manifest_artifacts(delta_start(input).manifest), input.generation);
    own.unique_seq_to_set();
}

} // verus!
