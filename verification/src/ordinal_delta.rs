//! Incremental updates of the ordinal identity: new mappings and deletions
//! become artifacts of the next generation, and the inventory is compacted by
//! binary carry.
use vstd::prelude::*;
use vstd::string::*;
use vstd::utf8::*;

use crate::bytes::{all_lower_hex, only_lower_hex, sat_add, saturating_sum};
use crate::error::{GfError, storage_err};
use crate::external_sort::{
    copy_range, external_sort, lemma_key_order_len, no_rebuild_metrics, Repeat, repeats,
    repeats_within_run, run_repeats, sort_distinct, sorted_metrics, UuidIndexBuildLimits,
    UuidIndexBuildMetrics,
};
use crate::framing::{decode, decode_outcome};
use crate::graded::{by_grade, lemma_by_grade, sort_by_grade};
use crate::keyed::{has_key, key_order, Keyed, lemma_is_key_order, ordered, share_key};
use crate::ordinal_artifacts::{tombstone_fault, tombstones_view, write_v4_tombstone_artifact};
use crate::ordinal_compaction::{
    carried, carry_filled, CarryState, compact_v4_binary_carry, filled, first_consumed,
    forward_intervals, no_compaction_work, V4CompactionWork, within,
};
use crate::ordinal_construction::{
    id_runs, lemma_run_sizes, run_range, stage_v4_ordinal_bundle, stream_outcome, uuid_bytes,
    V4ConstructionArtifactBundle,
};
use crate::ordinal_format::{
    ArtifactFileView, ArtifactView, duplicate_all, Duplicated, find_artifact, held, installed,
    larger, list_artifacts, manifest_artifacts, max_of, named, OrdinalManifestView, RangeView,
    TombstonesView, V4ArtifactFile, V4OrdinalArtifact, V4OrdinalBuildMetrics,
    V4OrdinalIdentityManifest, V4OrdinalRange, V4OrdinalTombstones, views,
};
use crate::ordinal_manifest::{admit_v4_construction_manifest, admitted, V4OrdinalBounds};
use crate::ranked::{in_order, lemma_multiset_images, Ranked, sort_ranked};
use crate::records::{ForwardRecord, NodeSurrogate, NodeTombstone};

verus! {

/// Whether a text is a lowercase hexadecimal SHA-256 digest.
pub open spec fn canonical_digest(text: Seq<char>) -> bool {
    encode_utf8(text).len() == 64 && all_lower_hex(encode_utf8(text))
}

/// Why a delta is not admitted, if it is not.
pub open spec fn admission_fault(
    current: u64,
    generation: u64,
    retained: u64,
    digest: Seq<char>,
) -> Option<Seq<char>> {
    if current == u64::MAX {
        Some("v4 generation overflow"@)
    } else if generation != current + 1 || retained != current {
        Some("prepared v4 ordinal delta is not the next authenticated generation"@)
    } else if !canonical_digest(digest) {
        Some("v4 topology delta digest is noncanonical"@)
    } else {
        None
    }
}

/// Whether a result is a fault or its absence.
pub open spec fn reports(result: Result<(), GfError>, fault: Option<Seq<char>>) -> bool {
    match result {
        Ok(()) => fault is None,
        Err(error) => fault is Some && error.is_storage(fault->0),
    }
}

/// Admit a delta on top of the retained generation.
fn admit_delta(current: u64, generation: u64, retained: u64, digest: &str) -> (admitted: Result<
    (),
    GfError,
>)
    ensures
        reports(admitted, admission_fault(current, generation, retained, digest@)),
{
    let next: u64 = match current.checked_add(1) {
        Some(next) => next,
        None => {
            return Err(storage_err("v4 generation overflow"));
        },
    };
    if generation != next || retained != current {
        return Err(
            storage_err("prepared v4 ordinal delta is not the next authenticated generation"),
        );
    }
    let bytes: &[u8] = digest.as_bytes();
    if bytes.len() != 64 || !only_lower_hex(bytes) {
        return Err(storage_err("v4 topology delta digest is noncanonical"));
    }
    Ok(())
}

/// Whether a mapping has a nil UUID or no node identifier.
pub open spec fn is_zero(mapping: ForwardRecord) -> bool {
    mapping.uuid == 0 || mapping.node_id == 0
}

/// The position of the first zero mapping, or -1.
pub open spec fn first_zero(nodes: Seq<ForwardRecord>) -> int
    decreases nodes.len(),
{
    if nodes.len() == 0 {
        -1
    } else {
        let before = first_zero(nodes.drop_last());
        if before >= 0 {
            before
        } else if is_zero(nodes.last()) {
            nodes.len() - 1
        } else {
            -1
        }
    }
}

/// Why new mappings cannot be sorted in runs of `n`, if they cannot.
pub open spec fn nodes_fault(nodes: Seq<ForwardRecord>, n: nat) -> Option<Seq<char>> {
    let zero = first_zero(nodes);
    if zero >= 0 && !run_repeats(nodes.take(zero / n as int * n), n) {
        Some("v4 node delta contains a zero identity"@)
    } else if run_repeats(nodes, n) {
        Some("duplicate UUID in canonical topology"@)
    } else if repeats(nodes) {
        Some("duplicate node UUID across external index runs"@)
    } else {
        None
    }
}

proof fn lemma_first_zero(nodes: Seq<ForwardRecord>, n: int)
    requires
        0 <= n <= nodes.len(),
        first_zero(nodes.take(n)) >= 0,
    ensures
        first_zero(nodes) == first_zero(nodes.take(n)),
    decreases nodes.len(),
{
    if n < nodes.len() {
        assert(nodes.drop_last().take(n) =~= nodes.take(n));
        lemma_first_zero(nodes.drop_last(), n);
    } else {
        assert(nodes.take(n) =~= nodes);
    }
}

proof fn lemma_prefix_run_repeats(nodes: Seq<ForwardRecord>, k: int, n: nat)
    requires
        n > 0,
        0 <= k * n <= nodes.len(),
        run_repeats(nodes.take(k * n), n),
    ensures
        run_repeats(nodes, n),
{
    let head = nodes.take(k * n);
    let r = choose|r: int|
        0 <= r && r * n < head.len() && repeats(#[trigger] crate::external_sort::nth_run(head, r, n));
    assert(r * n + n <= k * n) by (nonlinear_arith)
        requires
            r * n < k * n,
            n > 0,
    ;
    assert(crate::external_sort::nth_run(nodes, r, n) =~= crate::external_sort::nth_run(
        head,
        r,
        n,
    ));
}

/// New mappings in UUID order.
fn sort_v4_nodes(
    nodes: &Vec<ForwardRecord>,
    limits: UuidIndexBuildLimits,
    metrics: &mut UuidIndexBuildMetrics,
) -> (sorted: Result<Vec<ForwardRecord>, GfError>)
    requires
        limits.valid(),
    ensures
        ({
            let fault = nodes_fault(nodes@, limits.run_records as nat);
            match sorted {
                Ok(sorted) => {
                    &&& fault is None
                    &&& sorted@ == key_order(nodes@)
                    &&& *final(metrics) == sorted_metrics(*old(metrics), nodes@.len(), limits, true)
                },
                Err(error) => fault is Some && error.is_storage(fault->0),
            }
        }),
{
    let n: usize = limits.run_records;
    let mut i: usize = 0;
    while i < nodes.len()
        invariant
            i <= nodes.len(),
            n == limits.run_records,
            limits.valid(),
            first_zero(nodes@.take(i as int)) < 0,
        decreases nodes.len() - i,
    {
        proof {
            assert(nodes@.take(i + 1).drop_last() =~= nodes@.take(i as int));
        }
        if nodes[i].uuid == 0 || nodes[i].node_id == 0 {
            proof {
                lemma_first_zero(nodes@, i + 1);
                assert(i / n * n <= i && i / n >= 0) by (nonlinear_arith)
                    requires
                        n > 0,
                ;
            }
            let kept: usize = i / n * n;
            let head: Vec<ForwardRecord> = copy_range(nodes, 0, kept);
            assert(head@ =~= nodes@.take(i as int / n as int * n));
            if repeats_within_run(&head, n) {
                proof {
                    lemma_prefix_run_repeats(nodes@, (i / n) as int, n as nat);
                }
                return Err(storage_err("duplicate UUID in canonical topology"));
            }
            return Err(storage_err("v4 node delta contains a zero identity"));
        }
        i = i + 1;
    }
    assert(nodes@.take(i as int) =~= nodes@);
    match external_sort(nodes, limits, true, metrics) {
        Ok(sorted) => {
            proof {
                if run_repeats(nodes@, n as nat) {
                    lemma_run_repeats_all(nodes@, n as nat);
                }
            }
            Ok(sorted)
        },
        Err(Repeat::WithinRun) => Err(storage_err("duplicate UUID in canonical topology")),
        Err(Repeat::AcrossRuns) => Err(
            storage_err("duplicate node UUID across external index runs"),
        ),
    }
}

/// A key that repeats within a run repeats.
pub proof fn lemma_run_repeats_all<T: Keyed>(items: Seq<T>, n: nat)
    requires
        run_repeats(items, n),
    ensures
        repeats(items),
{
    let k = choose|k: int|
        0 <= k && k * n < items.len() && repeats(#[trigger] crate::external_sort::nth_run(items, k, n));
    let part = crate::external_sort::nth_run(items, k, n);
    let (i, j) = choose|i: int, j: int|
        0 <= i < j < part.len() && (#[trigger] part[i]).key() == (#[trigger] part[j]).key();
    assert(0 <= k * n) by (nonlinear_arith)
        requires
            0 <= k,
    ;
    assert(items[k * n + i].key() == items[k * n + j].key());
}

/// Whether two runs, compared head by head, have a UUID in common.
pub open spec fn meets(prior: Seq<ForwardRecord>, fresh: Seq<ForwardRecord>) -> bool
    decreases prior.len() + fresh.len(),
{
    if prior.len() == 0 || fresh.len() == 0 {
        false
    } else if prior[0].uuid < fresh[0].uuid {
        meets(prior.skip(1), fresh)
    } else if prior[0].uuid > fresh[0].uuid {
        meets(prior, fresh.skip(1))
    } else {
        true
    }
}

proof fn lemma_ordered_skip(items: Seq<ForwardRecord>)
    requires
        ordered(items),
        items.len() > 0,
    ensures
        ordered(items.skip(1)),
        forall|i: int| 0 <= i < items.skip(1).len() ==> items[0].key() < (#[trigger] items.skip(
            1,
        )[i]).key(),
{
    assert forall|i: int, j: int| 0 <= i < j < items.skip(1).len() implies (#[trigger] items.skip(
        1,
    )[i]).key() < (#[trigger] items.skip(1)[j]).key() by {
        assert(items[i + 1].key() < items[j + 1].key());
    }
    assert forall|i: int| 0 <= i < items.skip(1).len() implies items[0].key() < (
    #[trigger] items.skip(1)[i]).key() by {
        assert(items[0].key() < items[i + 1].key());
    }
}

/// Ordered runs compared head by head meet exactly where they share a UUID.
pub proof fn lemma_meets(prior: Seq<ForwardRecord>, fresh: Seq<ForwardRecord>)
    requires
        ordered(prior),
        ordered(fresh),
    ensures
        meets(prior, fresh) == share_key(prior, fresh),
    decreases prior.len() + fresh.len(),
{
    if prior.len() > 0 && fresh.len() > 0 {
        let p = prior.skip(1);
        let f = fresh.skip(1);
        lemma_ordered_skip(prior);
        lemma_ordered_skip(fresh);
        if prior[0].uuid < fresh[0].uuid {
            lemma_meets(p, fresh);
            if share_key(p, fresh) {
                let i = choose|i: int| 0 <= i < p.len() && has_key(fresh, (#[trigger] p[i]).key());
                assert(has_key(fresh, prior[i + 1].key()));
            }
            if share_key(prior, fresh) {
                let i = choose|i: int|
                    0 <= i < prior.len() && has_key(fresh, (#[trigger] prior[i]).key());
                let j = choose|j: int|
                    0 <= j < fresh.len() && (#[trigger] fresh[j]).key() == prior[i].key();
                if i == 0 {
                    if j > 0 {
                        assert(fresh[0].key() < fresh[j].key());
                    }
                    assert(false);
                }
                assert(has_key(fresh, p[i - 1].key()));
            }
        } else if prior[0].uuid > fresh[0].uuid {
            lemma_meets(prior, f);
            if share_key(prior, f) {
                let i = choose|i: int| 0 <= i < prior.len() && has_key(f, (#[trigger] prior[i]).key());
                let j = choose|j: int| 0 <= j < f.len() && (#[trigger] f[j]).key() == prior[i].key();
                assert(fresh[j + 1].key() == prior[i].key());
                assert(has_key(fresh, prior[i].key()));
            }
            if share_key(prior, fresh) {
                let i = choose|i: int|
                    0 <= i < prior.len() && has_key(fresh, (#[trigger] prior[i]).key());
                let j = choose|j: int|
                    0 <= j < fresh.len() && (#[trigger] fresh[j]).key() == prior[i].key();
                if j == 0 {
                    if i > 0 {
                        assert(prior[0].key() < prior[i].key());
                    }
                    assert(false);
                }
                assert(f[j - 1].key() == prior[i].key());
                assert(has_key(f, prior[i].key()));
            }
        } else {
            assert(fresh[0].key() == prior[0].key());
            assert(has_key(fresh, prior[0].key()));
        }
    }
}

fn runs_meet(prior: &Vec<ForwardRecord>, fresh: &Vec<ForwardRecord>) -> (yes: bool)
    ensures
        yes == meets(prior@, fresh@),
{
    let mut i: usize = 0;
    let mut j: usize = 0;
    assert(prior@.skip(0) =~= prior@);
    assert(fresh@.skip(0) =~= fresh@);
    while i < prior.len() && j < fresh.len()
        invariant
            i <= prior@.len(),
            j <= fresh@.len(),
            meets(prior@, fresh@) == meets(prior@.skip(i as int), fresh@.skip(j as int)),
        decreases prior.len() - i + fresh.len() - j,
    {
        proof {
            assert(prior@.skip(i as int).skip(1) =~= prior@.skip(i + 1));
            assert(fresh@.skip(j as int).skip(1) =~= fresh@.skip(j + 1));
        }
        if prior[i].uuid < fresh[j].uuid {
            i = i + 1;
        } else if prior[i].uuid > fresh[j].uuid {
            j = j + 1;
        } else {
            return true;
        }
    }
    false
}

/// Why new UUIDs are refused on top of the retained forward runs, if they are.
pub open spec fn reuse_fault(
    forwards: Seq<ArtifactView>,
    pinned: Seq<ArtifactFileView>,
    fresh: Seq<ForwardRecord>,
) -> Option<Seq<char>>
    decreases forwards.len(),
{
    if forwards.len() == 0 {
        None
    } else {
        match reuse_fault(forwards.drop_last(), pinned, fresh) {
            Some(text) => Some(text),
            None => match held(pinned, forwards.last().name) {
                None => Some("authenticated v4 update input is absent"@),
                Some(content) => match decode_outcome::<ForwardRecord>(content) {
                    Err(text) => Some(text),
                    Ok(prior) => if meets(prior, fresh) {
                        Some("v4 node UUID already exists in retained forward authority"@)
                    } else {
                        None
                    },
                },
            },
        }
    }
}

proof fn lemma_reuse_fails(
    forwards: Seq<ArtifactView>,
    pinned: Seq<ArtifactFileView>,
    fresh: Seq<ForwardRecord>,
    n: int,
)
    requires
        0 <= n <= forwards.len(),
        reuse_fault(forwards.take(n), pinned, fresh) is Some,
    ensures
        reuse_fault(forwards, pinned, fresh) == reuse_fault(forwards.take(n), pinned, fresh),
    decreases forwards.len(),
{
    if n < forwards.len() {
        assert(forwards.drop_last().take(n) =~= forwards.take(n));
        lemma_reuse_fails(forwards.drop_last(), pinned, fresh, n);
    } else {
        assert(forwards.take(n) =~= forwards);
    }
}

/// Check that no new UUID has ever stood in the retained forward runs.
/// Deletion does not release a UUID.
pub fn reject_prior_v4_uuid_reuse(
    forwards: &Vec<V4OrdinalArtifact>,
    pinned: &Vec<V4ArtifactFile>,
    fresh: &Vec<ForwardRecord>,
) -> (checked: Result<(), GfError>)
    ensures
        reports(checked, reuse_fault(views(forwards@), views(pinned@), fresh@)),
{
    let ghost all = views(forwards@);
    let ghost retained = views(pinned@);
    let mut i: usize = 0;
    assert(all.take(0) =~= Seq::<ArtifactView>::empty());
    while i < forwards.len()
        invariant
            i <= forwards@.len(),
            all == views(forwards@),
            retained == views(pinned@),
            reuse_fault(all.take(i as int), retained, fresh@) is None,
        decreases forwards.len() - i,
    {
        proof {
            assert(all.take(i + 1).drop_last() =~= all.take(i as int));
            assert(all[i as int] == forwards@[i as int]@);
            if reuse_fault(all.take(i + 1), retained, fresh@) is Some {
                lemma_reuse_fails(all, retained, fresh@, i + 1);
            }
        }
        match find_artifact(pinned, &forwards[i].name) {
            Some(at) => match decode::<ForwardRecord>(pinned[at].bytes.as_slice()) {
                Ok(prior) => {
                    if runs_meet(&prior, fresh) {
                        return Err(
                            storage_err(
                                "v4 node UUID already exists in retained forward authority",
                            ),
                        );
                    }
                },
                Err(error) => {
                    return Err(error);
                },
            },
            None => {
                return Err(storage_err("authenticated v4 update input is absent"));
            },
        }
        i = i + 1;
    }
    assert(all.take(i as int) =~= all);
    Ok(())
}

/// Mappings as records by identifier.
pub open spec fn as_surrogates(mappings: Seq<ForwardRecord>) -> Seq<NodeSurrogate> {
    Seq::new(
        mappings.len(),
        |i: int| NodeSurrogate { surrogate: mappings[i].node_id, uuid: mappings[i].uuid },
    )
}

/// Why mappings cannot be sorted by identifier, if they cannot.
pub open spec fn surrogate_fault(mappings: Seq<ForwardRecord>, n: nat) -> Option<Seq<char>> {
    if run_repeats(as_surrogates(mappings), n) {
        Some("duplicate node surrogate"@)
    } else if repeats(as_surrogates(mappings)) {
        Some("duplicate node surrogate across runs"@)
    } else {
        None
    }
}

/// Mappings in identifier order.
pub fn build_surrogate_run(
    mappings: &Vec<ForwardRecord>,
    limits: UuidIndexBuildLimits,
    metrics: &mut UuidIndexBuildMetrics,
) -> (run: Result<Vec<NodeSurrogate>, GfError>)
    requires
        limits.valid(),
    ensures
        ({
            let fault = surrogate_fault(mappings@, limits.run_records as nat);
            match run {
                Ok(run) => {
                    &&& fault is None
                    &&& run@ == key_order(as_surrogates(mappings@))
                    &&& *final(metrics) == sorted_metrics(
                        *old(metrics),
                        mappings@.len(),
                        limits,
                        false,
                    )
                },
                Err(error) => fault is Some && error.is_storage(fault->0),
            }
        }),
{
    let mut records: Vec<NodeSurrogate> = Vec::new();
    let mut i: usize = 0;
    while i < mappings.len()
        invariant
            i <= mappings@.len(),
            records@ == as_surrogates(mappings@.take(i as int)),
        decreases mappings.len() - i,
    {
        records.push(NodeSurrogate { surrogate: mappings[i].node_id, uuid: mappings[i].uuid });
        assert(records@ =~= as_surrogates(mappings@.take(i + 1)));
        i = i + 1;
    }
    assert(mappings@.take(i as int) =~= mappings@);
    match external_sort(&records, limits, false, metrics) {
        Ok(run) => {
            proof {
                if run_repeats(records@, limits.run_records as nat) {
                    lemma_run_repeats_all(records@, limits.run_records as nat);
                }
            }
            Ok(run)
        },
        Err(Repeat::WithinRun) => Err(storage_err("duplicate node surrogate")),
        Err(Repeat::AcrossRuns) => Err(storage_err("duplicate node surrogate across runs")),
    }
}

/// Why deletions are refused, if they are.
pub open spec fn deletion_fault(deleted: Seq<NodeTombstone>) -> Option<Seq<char>> {
    if repeats(deleted) || deleted.contains(NodeTombstone { node_id: 0 }) {
        Some("v4 tombstone delta is not sorted unique nonzero"@)
    } else {
        None
    }
}

/// Deletions in order.
fn sort_deletions(deleted: &Vec<NodeTombstone>) -> (sorted: Result<Vec<NodeTombstone>, GfError>)
    ensures
        ({
            let fault = deletion_fault(deleted@);
            match sorted {
                Ok(sorted) => fault is None && sorted@ == key_order(deleted@),
                Err(error) => fault is Some && error.is_storage(fault->0),
            }
        }),
{
    match sort_distinct(deleted) {
        Some(sorted) => {
            proof {
                lemma_is_key_order(sorted@, deleted@);
            }
            if sorted.len() > 0 && sorted[0].node_id == 0 {
                assert(sorted@.contains(sorted@[0]));
                assert(sorted@[0] == (NodeTombstone { node_id: 0 }));
                return Err(storage_err("v4 tombstone delta is not sorted unique nonzero"));
            }
            proof {
                if deleted@.contains(NodeTombstone { node_id: 0 }) {
                    assert(sorted@.contains(NodeTombstone { node_id: 0 }));
                    let i = choose|i: int|
                        0 <= i < sorted@.len() && sorted@[i] == (NodeTombstone { node_id: 0 });
                    if i > 0 {
                        assert(sorted@[0].key() < sorted@[i].key());
                    }
                }
            }
            Ok(sorted)
        },
        None => Err(storage_err("v4 tombstone delta is not sorted unique nonzero")),
    }
}

/// The last identifier of a range, where it is a number of the machine.
pub open spec fn range_top(range: RangeView) -> Option<u64> {
    let span = if range.count == 0 {
        0
    } else {
        range.count - 1
    };
    if range.first_node_id + span > u64::MAX {
        None
    } else {
        Some((range.first_node_id + span) as u64)
    }
}

/// Whether a range holds an identifier.
pub open spec fn range_holds(range: RangeView, node_id: u64) -> bool {
    match range_top(range) {
        Some(top) => range.first_node_id <= node_id <= top,
        None => false,
    }
}

/// Whether some range holds an identifier.
pub open spec fn ranges_hold(ranges: Seq<RangeView>, node_id: u64) -> bool {
    exists|i: int| 0 <= i < ranges.len() && range_holds(#[trigger] ranges[i], node_id)
}

/// Why new identifiers or deletions do not fit the retained ranges, if they
/// do not.
pub open spec fn authority_fault(
    ranges: Seq<RangeView>,
    ordinals: Seq<NodeSurrogate>,
    deleted: Seq<NodeTombstone>,
) -> Option<Seq<char>> {
    if ranges.len() > 0 && range_top(ranges.last()) is None {
        Some("retained v4 ordinal range overflows"@)
    } else if ordinals.len() > 0 && ordinals[0].surrogate <= (if ranges.len() > 0 {
        range_top(ranges.last())->0
    } else {
        0
    }) {
        Some("v4 node surrogate is not monotonic or is reused"@)
    } else if exists|i: int|
        0 <= i < deleted.len() && !ranges_hold(ranges, (#[trigger] deleted[i]).node_id) {
        Some("v4 tombstone does not name retained ordinal authority"@)
    } else {
        None
    }
}

fn top_of(range: &V4OrdinalRange) -> (top: Option<u64>)
    ensures
        top == range_top(range@),
{
    let span: u64 = if range.count == 0 {
        0
    } else {
        range.count - 1
    };
    range.first_node_id.checked_add(span)
}

fn some_range_holds(ranges: &Vec<V4OrdinalRange>, node_id: u64) -> (yes: bool)
    ensures
        yes == ranges_hold(views(ranges@), node_id),
{
    let ghost all = views(ranges@);
    let mut i: usize = 0;
    while i < ranges.len()
        invariant
            i <= ranges@.len(),
            all == views(ranges@),
            forall|k: int| 0 <= k < i ==> !range_holds(#[trigger] all[k], node_id),
        decreases ranges.len() - i,
    {
        assert(all[i as int] == ranges@[i as int]@);
        match top_of(&ranges[i]) {
            Some(top) => {
                if ranges[i].first_node_id <= node_id && node_id <= top {
                    return true;
                }
            },
            None => {},
        }
        i = i + 1;
    }
    false
}

/// Check new identifiers and deletions against the retained ranges.
fn check_authority(
    ranges: &Vec<V4OrdinalRange>,
    ordinals: &Vec<NodeSurrogate>,
    deleted: &Vec<NodeTombstone>,
) -> (checked: Result<(), GfError>)
    ensures
        reports(checked, authority_fault(views(ranges@), ordinals@, deleted@)),
{
    let ghost all = views(ranges@);
    let mut prior_max: u64 = 0;
    if ranges.len() > 0 {
        assert(all.last() == ranges@[ranges@.len() - 1]@);
        match top_of(&ranges[ranges.len() - 1]) {
            Some(top) => {
                prior_max = top;
            },
            None => {
                return Err(storage_err("retained v4 ordinal range overflows"));
            },
        }
    }
    if ordinals.len() > 0 && ordinals[0].surrogate <= prior_max {
        return Err(storage_err("v4 node surrogate is not monotonic or is reused"));
    }
    let mut i: usize = 0;
    while i < deleted.len()
        invariant
            i <= deleted@.len(),
            all == views(ranges@),
            ranges@.len() > 0 ==> range_top(all.last()) == Some(prior_max),
            ranges@.len() == 0 ==> prior_max == 0,
            ordinals@.len() > 0 ==> ordinals@[0].surrogate > prior_max,
            forall|k: int| 0 <= k < i ==> ranges_hold(all, (#[trigger] deleted@[k]).node_id),
        decreases deleted.len() - i,
    {
        if !some_range_holds(ranges, deleted[i].node_id) {
            assert(!ranges_hold(all, deleted@[i as int].node_id));
            return Err(storage_err("v4 tombstone does not name retained ordinal authority"));
        }
        i = i + 1;
    }
    Ok(())
}

/// What a delta is planned from.
#[verifier::ext_equal]
pub struct DeltaInput {
    pub current: u64,
    pub generation: u64,
    /// Retained inventory.
    pub manifest: OrdinalManifestView,
    /// Retained artifacts.
    pub pinned: Seq<ArtifactFileView>,
    /// New mappings.
    pub nodes: Seq<ForwardRecord>,
    /// Deleted nodes.
    pub deleted: Seq<NodeTombstone>,
    /// Digest of the topology delta.
    pub digest: Seq<char>,
    pub limits: UuidIndexBuildLimits,
    pub bounds: V4OrdinalBounds,
}

impl DeltaInput {
    /// New mappings in UUID order.
    pub open spec fn forward(self) -> Seq<ForwardRecord> {
        key_order(self.nodes)
    }

    /// New mappings in identifier order.
    pub open spec fn ordinals(self) -> Seq<NodeSurrogate> {
        key_order(as_surrogates(self.forward()))
    }

    /// Deleted nodes in order.
    pub open spec fn tombstones(self) -> Seq<NodeTombstone> {
        key_order(self.deleted)
    }
}

/// Why a delta is refused before anything is written, if it is.
pub open spec fn delta_fault(input: DeltaInput) -> Option<Seq<char>> {
    let n = input.limits.run_records as nat;
    match admission_fault(
        input.current,
        input.generation,
        input.manifest.topology_generation,
        input.digest,
    ) {
        Some(text) => Some(text),
        None => match nodes_fault(input.nodes, n) {
            Some(text) => Some(text),
            None => match reuse_fault(input.manifest.forward, input.pinned, input.forward()) {
                Some(text) => Some(text),
                None => match surrogate_fault(input.forward(), n) {
                    Some(text) => Some(text),
                    None => match deletion_fault(input.deleted) {
                        Some(text) => Some(text),
                        None => authority_fault(
                            input.manifest.ranges,
                            input.ordinals(),
                            input.tombstones(),
                        ),
                    },
                },
            },
        },
    }
}

/// The inventory with the artifacts of a delta added.
pub open spec fn extended(
    retained: OrdinalManifestView,
    delta: OrdinalManifestView,
    tombstones: TombstonesView,
    generation: u64,
) -> OrdinalManifestView {
    OrdinalManifestView {
        format_version: retained.format_version,
        topology_generation: generation,
        forward: retained.forward + delta.forward,
        ranges: by_grade::<V4OrdinalRange>(retained.ranges + delta.ranges),
        tombstones: retained.tombstones.push(tombstones),
    }
}

/// A planned delta before its artifacts are selected.
#[verifier::ext_equal]
pub struct OrdinalDeltaModel {
    pub manifest: OrdinalManifestView,
    pub files: Seq<ArtifactFileView>,
    pub build: V4OrdinalBuildMetrics,
    pub work: V4CompactionWork,
    /// Artifacts of the delta itself.
    pub delta_artifacts: nat,
}

/// Names of the artifacts of one generation, each once.
pub open spec fn names_of(artifacts: Seq<ArtifactView>, generation: u64) -> Seq<Seq<char>>
    decreases artifacts.len(),
{
    if artifacts.len() == 0 {
        Seq::empty()
    } else {
        let before = names_of(artifacts.drop_last(), generation);
        let last = artifacts.last();
        if last.generation == generation && !before.contains(last.name) {
            before.push(last.name)
        } else {
            before
        }
    }
}

/// What planning a delta leaves, or why it fails.
pub open spec fn delta_outcome(input: DeltaInput) -> Result<OrdinalDeltaModel, Seq<char>> {
    match delta_fault(input) {
        Some(text) => Err(text),
        None => match stream_outcome(
            input.generation,
            input.bounds,
            input.forward(),
            input.ordinals(),
        ) {
            Err(text) => Err(text),
            Ok(bundle) => match tombstone_fault(
                bundle.files,
                input.tombstones(),
                input.generation,
            ) {
                Some(text) => Err(text),
                None => {
                    let buried = tombstones_view(input.tombstones(), input.generation);
                    let files = installed(
                        bundle.files,
                        ArtifactFileView {
                            descriptor: buried.artifact,
                            bytes: crate::framing::pack(input.tombstones()),
                        },
                    );
                    let manifest = extended(
                        input.manifest,
                        bundle.manifest,
                        buried,
                        input.generation,
                    );
                    match carried(
                        CarryState { manifest, files, work: no_compaction_work() },
                        input.pinned,
                    ) {
                        Err(text) => Err(text),
                        Ok(done) => admitted(
                            OrdinalDeltaModel {
                                manifest: done.manifest,
                                files: done.files,
                                build: bundle.metrics,
                                work: done.work,
                                delta_artifacts: names_of(
                                    manifest_artifacts(manifest),
                                    input.generation,
                                ).len(),
                            },
                            done.manifest,
                            input.bounds.manifest_bytes,
                        ),
                    }
                },
            },
        },
    }
}

/// The next ordinal inventory and the artifacts to publish for it.
#[derive(Debug, PartialEq, Eq)]
pub struct PlannedV4OrdinalDelta {
    /// The next inventory.
    pub manifest: V4OrdinalIdentityManifest,
    /// New artifacts that the inventory names, by name.
    pub outputs: Vec<V4ArtifactFile>,
    /// Counters of encoding the delta.
    pub build: V4OrdinalBuildMetrics,
    /// Work of the compaction.
    pub compaction: V4CompactionWork,
    /// New mappings.
    pub input_identities: u64,
    /// Deleted nodes.
    pub input_tombstones: u64,
    /// Bytes of the tombstone run of the delta.
    pub tombstone_bytes: u64,
    /// Artifacts of the delta itself.
    pub delta_artifacts: u64,
    /// Artifacts kept from the inventory before.
    pub retained_artifacts: u64,
    /// Most records buffered while sorting.
    pub peak_buffered_records: u64,
}

/// The files whose name an inventory holds.
pub open spec fn named_files(
    files: Seq<ArtifactFileView>,
    artifacts: Seq<ArtifactView>,
) -> Seq<ArtifactFileView>
    decreases files.len(),
{
    if files.len() == 0 {
        Seq::empty()
    } else {
        let before = named_files(files.drop_last(), artifacts);
        if named(artifacts, files.last().descriptor.name) {
            before.push(files.last())
        } else {
            before
        }
    }
}

/// The names of artifacts, each once.
pub open spec fn all_names(artifacts: Seq<ArtifactView>) -> Seq<Seq<char>>
    decreases artifacts.len(),
{
    if artifacts.len() == 0 {
        Seq::empty()
    } else {
        let before = all_names(artifacts.drop_last());
        if before.contains(artifacts.last().name) {
            before
        } else {
            before.push(artifacts.last().name)
        }
    }
}

/// How many names are also names of other artifacts.
pub open spec fn shared_names(names: Seq<Seq<char>>, others: Seq<ArtifactView>) -> nat
    decreases names.len(),
{
    if names.len() == 0 {
        0
    } else if named(others, names.last()) {
        shared_names(names.drop_last(), others) + 1
    } else {
        shared_names(names.drop_last(), others)
    }
}

impl Ranked for V4ArtifactFile {
    open spec fn not_after(self, other: Self) -> bool {
        self.descriptor.name.not_after(other.descriptor.name)
    }

    proof fn total(left: Self, right: Self) {
        String::total(left.descriptor.name, right.descriptor.name);
    }

    proof fn transitive(first: Self, second: Self, third: Self) {
        String::transitive(
            first.descriptor.name,
            second.descriptor.name,
            third.descriptor.name,
        );
    }

    fn comes_first(&self, other: &Self) -> (yes: bool) {
        self.descriptor.name.comes_first(&other.descriptor.name)
    }
}

/// Whether a plan publishes a planned delta.
pub open spec fn publishes(planned: PlannedV4OrdinalDelta, model: OrdinalDeltaModel, input: DeltaInput) -> bool {
    let artifacts = manifest_artifacts(model.manifest);
    &&& planned.manifest@ == model.manifest
    &&& in_order(planned.outputs@)
    &&& views(planned.outputs@).to_multiset() == named_files(model.files, artifacts).to_multiset()
    &&& planned.build == model.build
    &&& planned.compaction == model.work
    &&& planned.input_identities == input.nodes.len()
    &&& planned.input_tombstones == input.deleted.len()
    &&& planned.tombstone_bytes == 8 * input.deleted.len()
    &&& planned.delta_artifacts == model.delta_artifacts
    &&& planned.retained_artifacts == shared_names(
        all_names(artifacts),
        manifest_artifacts(input.manifest),
    )
    &&& planned.peak_buffered_records == sorted_metrics(
        sorted_metrics(no_rebuild_metrics(), input.nodes.len(), input.limits, true),
        input.nodes.len(),
        input.limits,
        false,
    ).peak_buffered_records
}

fn text_in(names: &Vec<String>, name: &String) -> (yes: bool)
    ensures
        yes == views(names@).contains(name@),
{
    let ghost all = views(names@);
    let mut i: usize = 0;
    while i < names.len()
        invariant
            i <= names@.len(),
            all == views(names@),
            forall|k: int| 0 <= k < i ==> #[trigger] all[k] != name@,
        decreases names.len() - i,
    {
        assert(all[i as int] == names@[i as int]@);
        if names[i] == *name {
            assert(all[i as int] == name@);
            return true;
        }
        i = i + 1;
    }
    false
}

fn count_generation(artifacts: &Vec<V4OrdinalArtifact>, generation: u64) -> (count: u64)
    ensures
        count == names_of(views(artifacts@), generation).len(),
{
    let ghost all = views(artifacts@);
    let mut names: Vec<String> = Vec::new();
    let mut i: usize = 0;
    assert(all.take(0) =~= Seq::<ArtifactView>::empty());
    assert(views(names@) =~= Seq::<Seq<char>>::empty());
    while i < artifacts.len()
        invariant
            i <= artifacts@.len(),
            all == views(artifacts@),
            views(names@) == names_of(all.take(i as int), generation),
        decreases artifacts.len() - i,
    {
        let ghost before = names@;
        proof {
            assert(all.take(i + 1).drop_last() =~= all.take(i as int));
            assert(all[i as int] == artifacts@[i as int]@);
        }
        if artifacts[i].generation == generation && !text_in(&names, &artifacts[i].name) {
            names.push(artifacts[i].name.clone());
            assert(views(names@) =~= views(before).push(all[i as int].name));
        }
        i = i + 1;
    }
    assert(all.take(i as int) =~= all);
    names.len() as u64
}

fn distinct_artifact_names(artifacts: &Vec<V4OrdinalArtifact>) -> (names: Vec<String>)
    ensures
        views(names@) == all_names(views(artifacts@)),
{
    let ghost all = views(artifacts@);
    let mut names: Vec<String> = Vec::new();
    let mut i: usize = 0;
    assert(all.take(0) =~= Seq::<ArtifactView>::empty());
    assert(views(names@) =~= Seq::<Seq<char>>::empty());
    while i < artifacts.len()
        invariant
            i <= artifacts@.len(),
            all == views(artifacts@),
            views(names@) == all_names(all.take(i as int)),
        decreases artifacts.len() - i,
    {
        let ghost before = names@;
        proof {
            assert(all.take(i + 1).drop_last() =~= all.take(i as int));
            assert(all[i as int] == artifacts@[i as int]@);
        }
        if !text_in(&names, &artifacts[i].name) {
            names.push(artifacts[i].name.clone());
            assert(views(names@) =~= views(before).push(all[i as int].name));
        }
        i = i + 1;
    }
    assert(all.take(i as int) =~= all);
    names
}

pub(crate) fn is_named(artifacts: &Vec<V4OrdinalArtifact>, name: &String) -> (yes: bool)
    ensures
        yes == named(views(artifacts@), name@),
{
    let ghost all = views(artifacts@);
    let mut i: usize = 0;
    while i < artifacts.len()
        invariant
            i <= artifacts@.len(),
            all == views(artifacts@),
            forall|k: int| 0 <= k < i ==> (#[trigger] all[k]).name != name@,
        decreases artifacts.len() - i,
    {
        assert(all[i as int] == artifacts@[i as int]@);
        if artifacts[i].name == *name {
            assert(all[i as int].name == name@);
            return true;
        }
        i = i + 1;
    }
    false
}

fn count_shared(names: &Vec<String>, others: &Vec<V4OrdinalArtifact>) -> (count: u64)
    ensures
        count == shared_names(views(names@), views(others@)),
        count <= names@.len(),
{
    let ghost all = views(names@);
    let mut count: u64 = 0;
    let mut i: usize = 0;
    assert(all.take(0) =~= Seq::<Seq<char>>::empty());
    while i < names.len()
        invariant
            i <= names.len(),
            all == views(names@),
            count <= i,
            count == shared_names(all.take(i as int), views(others@)),
        decreases names.len() - i,
    {
        proof {
            assert(all.take(i + 1).drop_last() =~= all.take(i as int));
            assert(all[i as int] == names@[i as int]@);
        }
        if is_named(others, &names[i]) {
            count = count + 1;
        }
        i = i + 1;
    }
    assert(all.take(i as int) =~= all);
    count
}

fn select_outputs(files: Vec<V4ArtifactFile>, artifacts: &Vec<V4OrdinalArtifact>) -> (outputs: Vec<
    V4ArtifactFile,
>)
    ensures
        in_order(outputs@),
        views(outputs@).to_multiset() == named_files(
            views(files@),
            views(artifacts@),
        ).to_multiset(),
{
    let ghost all = views(files@);
    let mut kept: Vec<V4ArtifactFile> = Vec::new();
    let mut i: usize = 0;
    assert(all.take(0) =~= Seq::<ArtifactFileView>::empty());
    assert(views(kept@) =~= Seq::<ArtifactFileView>::empty());
    while i < files.len()
        invariant
            i <= files@.len(),
            all == views(files@),
            views(kept@) == named_files(all.take(i as int), views(artifacts@)),
        decreases files.len() - i,
    {
        let ghost before = kept@;
        proof {
            assert(all.take(i + 1).drop_last() =~= all.take(i as int));
            assert(all[i as int] == files@[i as int]@);
        }
        if is_named(artifacts, &files[i].descriptor.name) {
            kept.push(
                V4ArtifactFile {
                    descriptor: files[i].descriptor.duplicate(),
                    bytes: vstd::slice::slice_to_vec(files[i].bytes.as_slice()),
                },
            );
            assert(views(kept@) =~= views(before).push(all[i as int]));
        }
        i = i + 1;
    }
    assert(all.take(i as int) =~= all);
    let ghost unsorted = kept@;
    let outputs: Vec<V4ArtifactFile> = sort_ranked(kept);
    proof {
        let image = |file: V4ArtifactFile| file@;
        lemma_multiset_images(outputs@, unsorted, image);
        assert(Seq::new(outputs@.len(), |i: int| image(outputs@[i])) =~= views(outputs@));
        assert(Seq::new(unsorted.len(), |i: int| image(unsorted[i])) =~= views(unsorted));
    }
    outputs
}

proof fn lemma_delta_ranges(ordinals: Seq<NodeSurrogate>, generation: u64)
    requires
        ordinals.len() <= u64::MAX,
    ensures
        forall|i: int|
            0 <= i < id_runs(ordinals).len() ==> (#[trigger] run_range(
                id_runs(ordinals)[i],
                generation,
            )).count > 0,
{
    lemma_run_sizes(ordinals);
    let runs = id_runs(ordinals);
    assert forall|i: int| 0 <= i < runs.len() implies (#[trigger] run_range(
        runs[i],
        generation,
    )).count > 0 by {
        assert(0 < runs[i].len() <= ordinals.len());
        assert(uuid_bytes(runs[i]).len() / 16 == runs[i].len());
    }
}

/// Whether no range that the carry after a delta merges is empty: the delta
/// brings one forward run of its generation.
pub open spec fn delta_filled(retained: OrdinalManifestView, generation: u64) -> bool {
    forall|artifact: ArtifactView|
        artifact.generation == generation ==> carry_filled(
            (OrdinalManifestView {
                forward: #[trigger] retained.forward.push(artifact),
                ..retained
            }),
        )
}

proof fn lemma_delta_filled(
    retained: OrdinalManifestView,
    delta: OrdinalManifestView,
    tombstones: TombstonesView,
    generation: u64,
)
    requires
        delta_filled(retained, generation),
        delta.forward.len() == 1,
        delta.forward[0].generation == generation,
        forall|i: int| 0 <= i < delta.ranges.len() ==> (#[trigger] delta.ranges[i]).count > 0,
    ensures
        carry_filled(extended(retained, delta, tombstones, generation)),
{
    let all = retained.ranges + delta.ranges;
    let after = extended(retained, delta, tombstones, generation);
    let forward = retained.forward.push(delta.forward[0]);
    assert(after.forward =~= forward);
    assert(carry_filled((OrdinalManifestView { forward, ..retained })));
    lemma_by_grade::<V4OrdinalRange>(all);
    if forward_intervals(forward) is Ok {
        let intervals = forward_intervals(forward)->Ok_0;
        if first_consumed(intervals, None) is Some {
            let first = first_consumed(intervals, None)->0;
            let last = intervals.last().1;
            assert(filled(retained.ranges, first, last));
            assert forall|i: int|
                0 <= i < after.ranges.len() && within(
                    (#[trigger] after.ranges[i]).artifact.generation,
                    first,
                    last,
                ) implies after.ranges[i].count > 0 by {
                assert(all.contains(after.ranges[i]));
                let k = choose|k: int| 0 <= k < all.len() && all[k] == after.ranges[i];
                if k < retained.ranges.len() {
                    assert(retained.ranges[k].count > 0);
                } else {
                    assert(delta.ranges[k - retained.ranges.len()].count > 0);
                }
            }
        }
    }
}

fn extend_manifest(
    retained: &V4OrdinalIdentityManifest,
    delta: V4OrdinalIdentityManifest,
    tombstones: V4OrdinalTombstones,
    generation: u64,
) -> (manifest: V4OrdinalIdentityManifest)
    ensures
        manifest@ == extended(retained@, delta@, tombstones@, generation),
{
    let mut forwards: Vec<V4OrdinalArtifact> = duplicate_all(&retained.forward_identities);
    let ghost before_forwards = views(forwards@);
    let mut more: Vec<V4OrdinalArtifact> = delta.forward_identities;
    let ghost more_forwards = views(more@);
    forwards.append(&mut more);
    assert(views(forwards@) =~= before_forwards + more_forwards);
    let mut ranges: Vec<V4OrdinalRange> = duplicate_all(&retained.ordinal_ranges);
    let ghost before_ranges = views(ranges@);
    let mut more: Vec<V4OrdinalRange> = delta.ordinal_ranges;
    let ghost more_ranges = views(more@);
    ranges.append(&mut more);
    assert(views(ranges@) =~= before_ranges + more_ranges);
    let mut runs: Vec<V4OrdinalTombstones> = duplicate_all(&retained.tombstones);
    let ghost before_runs = views(runs@);
    let ghost last = tombstones@;
    runs.push(tombstones);
    assert(views(runs@) =~= before_runs.push(last));
    let ranges: Vec<V4OrdinalRange> = sort_by_grade(ranges);
    V4OrdinalIdentityManifest {
        format_version: retained.format_version,
        topology_generation: generation,
        forward_identities: forwards,
        ordinal_ranges: ranges,
        tombstones: runs,
    }
}

/// Plan an incremental update of the ordinal identity on top of the retained
/// inventory and its artifacts.
#[verifier::rlimit(60)]
pub fn prepare_v4_ordinal_delta(
    current: u64,
    generation: u64,
    retained: &V4OrdinalIdentityManifest,
    pinned: &Vec<V4ArtifactFile>,
    nodes: &Vec<ForwardRecord>,
    deleted: &Vec<NodeTombstone>,
    topology_delta_sha256: &str,
    limits: UuidIndexBuildLimits,
    bounds: V4OrdinalBounds,
) -> (planned: Result<PlannedV4OrdinalDelta, GfError>)
    requires
        limits.valid(),
        delta_filled(retained@, generation),
    ensures
        ({
            let input = DeltaInput {
                current,
                generation,
                manifest: retained@,
                pinned: views(pinned@),
                nodes: nodes@,
                deleted: deleted@,
                digest: topology_delta_sha256@,
                limits,
                bounds,
            };
            let outcome = delta_outcome(input);
            match planned {
                Ok(planned) => outcome is Ok && publishes(planned, outcome->Ok_0, input),
                Err(error) => outcome is Err && error.is_storage(outcome->Err_0),
            }
        }),
{
    let ghost input = DeltaInput {
        current,
        generation,
        manifest: retained@,
        pinned: views(pinned@),
        nodes: nodes@,
        deleted: deleted@,
        digest: topology_delta_sha256@,
        limits,
        bounds,
    };
    match admit_delta(current, generation, retained.topology_generation, topology_delta_sha256) {
        Ok(()) => {},
        Err(error) => {
            return Err(error);
        },
    }
    let mut metrics: UuidIndexBuildMetrics = UuidIndexBuildMetrics::none();
    let forward: Vec<ForwardRecord> = match sort_v4_nodes(nodes, limits, &mut metrics) {
        Ok(forward) => forward,
        Err(error) => {
            return Err(error);
        },
    };
    match reject_prior_v4_uuid_reuse(&retained.forward_identities, pinned, &forward) {
        Ok(()) => {},
        Err(error) => {
            return Err(error);
        },
    }
    let ordinals: Vec<NodeSurrogate> = match build_surrogate_run(&forward, limits, &mut metrics) {
        Ok(ordinals) => ordinals,
        Err(error) => {
            return Err(error);
        },
    };
    let tombstones: Vec<NodeTombstone> = match sort_deletions(deleted) {
        Ok(tombstones) => tombstones,
        Err(error) => {
            return Err(error);
        },
    };
    match check_authority(&retained.ordinal_ranges, &ordinals, &tombstones) {
        Ok(()) => {},
        Err(error) => {
            return Err(error);
        },
    }
    assert(delta_fault(input) is None);
    let bundle: V4ConstructionArtifactBundle = match stage_v4_ordinal_bundle(
        generation,
        bounds,
        &forward,
        &ordinals,
    ) {
        Ok(bundle) => bundle,
        Err(error) => {
            return Err(error);
        },
    };
    let count: usize = ordinals.len();
    proof {
        assert(ordinals@.len() == count);
        lemma_delta_ranges(ordinals@, generation);
    }
    let ghost staged = bundle@.manifest;
    let mut files: Vec<V4ArtifactFile> = bundle.files;
    let build: V4OrdinalBuildMetrics = bundle.metrics;
    let (buried, tombstone_bytes, _fsyncs): (V4OrdinalTombstones, u64, u64) =
        match write_v4_tombstone_artifact(&mut files, generation, &tombstones) {
        Ok(written) => written,
        Err(error) => {
            return Err(error);
        },
    };
    proof {
        assert forall|i: int| 0 <= i < staged.ranges.len() implies (
        #[trigger] staged.ranges[i]).count > 0 by {
            assert(run_range(id_runs(ordinals@)[i], generation).count > 0);
        }
        lemma_delta_filled(retained@, staged, buried@, generation);
    }
    let mut manifest: V4OrdinalIdentityManifest = extend_manifest(
        retained,
        bundle.manifest,
        buried,
        generation,
    );
    let delta_artifacts: u64 = count_generation(&list_artifacts(&manifest), generation);
    let compaction: V4CompactionWork = match compact_v4_binary_carry(
        pinned,
        &mut manifest,
        &mut files,
    ) {
        Ok(work) => work,
        Err(error) => {
            return Err(error);
        },
    };
    match admit_v4_construction_manifest(&manifest, bounds.manifest_bytes) {
        Ok(()) => {},
        Err(error) => {
            return Err(error);
        },
    }
    let artifacts: Vec<V4OrdinalArtifact> = list_artifacts(&manifest);
    let prior: Vec<V4OrdinalArtifact> = list_artifacts(retained);
    let retained_artifacts: u64 = count_shared(&distinct_artifact_names(&artifacts), &prior);
    let ghost done = views(files@);
    let outputs: Vec<V4ArtifactFile> = select_outputs(files, &artifacts);
    proof {
        lemma_key_order_len(nodes@);
        lemma_key_order_len(deleted@);
    }
    Ok(
        PlannedV4OrdinalDelta {
            manifest,
            outputs,
            build,
            compaction,
            input_identities: nodes.len() as u64,
            input_tombstones: deleted.len() as u64,
            tombstone_bytes,
            delta_artifacts,
            retained_artifacts,
            peak_buffered_records: metrics.peak_buffered_records,
        },
    )
}

/// Counters of publishing an ordinal delta.
#[derive(Clone, Copy, Debug, PartialEq, Eq, Structural)]
pub struct V4OrdinalAppendMetrics {
    /// New mappings.
    pub input_identities: u64,
    /// Deleted nodes.
    pub input_tombstones: u64,
    /// Artifacts written.
    pub created_artifacts: u64,
    /// Artifacts kept from the inventory before.
    pub retained_artifacts: u64,
    /// Bytes written.
    pub physical_bytes_written: u64,
    /// Intervals merged.
    pub compactions: u64,
    /// Bytes read in order.
    pub sequential_read_bytes: u64,
    /// Reads in order.
    pub sequential_read_calls: u64,
    /// Blocks read in order.
    pub sequential_read_blocks: u64,
    /// Bytes submitted for writing.
    pub write_bytes: u64,
    /// Blocks submitted for writing.
    pub write_blocks: u64,
    /// Most bytes buffered at a time.
    pub peak_buffer_bytes: u64,
    /// Most temporary bytes live at a time.
    pub peak_temporary_bytes: u64,
    /// File synchronizations.
    pub fsync_operations: u64,
    /// Rows of the topology before that were decoded: none.
    pub prior_topology_rows_decoded: u64,
    /// Seeks for a single record: none.
    pub per_record_seeks: u64,
}

/// The bytes of all outputs.
pub open spec fn staged_bytes(outputs: Seq<ArtifactFileView>) -> nat
    decreases outputs.len(),
{
    if outputs.len() == 0 {
        0
    } else {
        staged_bytes(outputs.drop_last()) + outputs.last().bytes.len()
    }
}

/// Blocks of `block` bytes that `bytes` take.
pub open spec fn blocks_for(bytes: nat, block: nat) -> nat {
    if bytes % block == 0 {
        bytes / block
    } else {
        bytes / block + 1
    }
}

/// The blocks of all outputs.
pub open spec fn staged_blocks(outputs: Seq<ArtifactFileView>, block: nat) -> nat
    decreases outputs.len(),
{
    if outputs.len() == 0 {
        0
    } else {
        staged_blocks(outputs.drop_last(), block) + blocks_for(outputs.last().bytes.len(), block)
    }
}

/// The counters of publishing a plan, or what overflows. The inventory and
/// its receipt are encoded in `control` bytes, and files are staged in blocks
/// of `block` bytes.
pub open spec fn append_metrics(
    planned: PlannedV4OrdinalDelta,
    control: u64,
    block: u64,
) -> Result<V4OrdinalAppendMetrics, Seq<char>> {
    let outputs = views(planned.outputs@);
    let staged = staged_bytes(outputs);
    let blocks = staged_blocks(outputs, block as nat);
    let buried = planned.tombstone_bytes;
    let build = planned.build;
    let work = planned.compaction;
    let before = sat_add(
        sat_add(sat_add(build.artifact_bytes, buried), work.write_bytes),
        staged as u64,
    );
    if staged > u64::MAX {
        Err("v4 staged artifact byte count overflow"@)
    } else if before + control > u64::MAX {
        Err("v4 submitted write byte count overflow"@)
    } else if blocks > u64::MAX {
        Err("v4 staged write block count overflow"@)
    } else if planned.input_identities * 96 > u64::MAX {
        Err("v4 sorting temporary byte count overflow"@)
    } else if planned.peak_buffered_records * 24 > u64::MAX {
        Err("v4 external-sort buffer charge overflow"@)
    } else {
        Ok(
            V4OrdinalAppendMetrics {
                input_identities: planned.input_identities,
                input_tombstones: planned.input_tombstones,
                created_artifacts: sat_add(planned.delta_artifacts, work.created_artifacts),
                retained_artifacts: planned.retained_artifacts,
                physical_bytes_written: (before + control) as u64,
                compactions: work.compactions,
                sequential_read_bytes: work.read_bytes,
                sequential_read_calls: work.read_calls,
                sequential_read_blocks: work.read_blocks,
                write_bytes: (before + control) as u64,
                write_blocks: sat_add(
                    sat_add(
                        sat_add(sat_add(build.write_blocks, 1), work.write_blocks),
                        blocks as u64,
                    ),
                    2,
                ),
                peak_buffer_bytes: larger(
                    larger(larger(build.peak_buffer_bytes, 196_608), block),
                    (planned.peak_buffered_records * 24) as u64,
                ),
                peak_temporary_bytes: sat_add(
                    sat_add(
                        sat_add(
                            sat_add(sat_add(build.peak_temporary_bytes, buried), work.write_bytes),
                            staged as u64,
                        ),
                        control,
                    ),
                    (planned.input_identities * 96) as u64,
                ),
                fsync_operations: sat_add(
                    sat_add(
                        sat_add(sat_add(build.fsync_operations, 1), work.fsync_operations),
                        outputs.len() as u64,
                    ),
                    2,
                ),
                prior_topology_rows_decoded: 0,
                per_record_seeks: 0,
            },
        )
    }
}

fn sum_staged(outputs: &Vec<V4ArtifactFile>, block: u64) -> (sums: (Option<u64>, Option<u64>))
    requires
        block > 0,
    ensures
        ({
            let bytes = staged_bytes(views(outputs@));
            let blocks = staged_blocks(views(outputs@), block as nat);
            &&& sums.0 == if bytes > u64::MAX {
                None
            } else {
                Some(bytes as u64)
            }
            &&& sums.1 == if blocks > u64::MAX {
                None
            } else {
                Some(blocks as u64)
            }
        }),
{
    let ghost all = views(outputs@);
    let mut bytes: Option<u64> = Some(0);
    let mut blocks: Option<u64> = Some(0);
    let mut i: usize = 0;
    assert(all.take(0) =~= Seq::<ArtifactFileView>::empty());
    while i < outputs.len()
        invariant
            i <= outputs@.len(),
            all == views(outputs@),
            block > 0,
            bytes == if staged_bytes(all.take(i as int)) > u64::MAX {
                None
            } else {
                Some(staged_bytes(all.take(i as int)) as u64)
            },
            blocks == if staged_blocks(all.take(i as int), block as nat) > u64::MAX {
                None
            } else {
                Some(staged_blocks(all.take(i as int), block as nat) as u64)
            },
        decreases outputs.len() - i,
    {
        proof {
            assert(all.take(i + 1).drop_last() =~= all.take(i as int));
            assert(all[i as int] == outputs@[i as int]@);
        }
        let len: u64 = outputs[i].bytes.len() as u64;
        let whole: u64 = len / block;
        assert(len % block != 0 ==> whole < u64::MAX) by (nonlinear_arith)
            requires
                whole == len / block,
                block > 0,
                len <= u64::MAX,
        ;
        let count: u64 = if len % block == 0 {
            whole
        } else {
            whole + 1
        };
        assert(count == blocks_for(all[i as int].bytes.len(), block as nat));
        bytes =
        match bytes {
            Some(sum) => sum.checked_add(len),
            None => None,
        };
        blocks =
        match blocks {
            Some(sum) => sum.checked_add(count),
            None => None,
        };
        i = i + 1;
    }
    assert(all.take(i as int) =~= all);
    (bytes, blocks)
}

/// Charge the publication of a plan.
pub fn charge_v4_ordinal_delta(planned: &PlannedV4OrdinalDelta, control: u64, block: u64) -> (metrics:
    Result<V4OrdinalAppendMetrics, GfError>)
    requires
        block > 0,
    ensures
        ({
            let outcome = append_metrics(*planned, control, block);
            match metrics {
                Ok(metrics) => outcome == Ok::<V4OrdinalAppendMetrics, Seq<char>>(metrics),
                Err(error) => outcome is Err && error.is_storage(outcome->Err_0),
            }
        }),
{
    let (staged, blocks): (Option<u64>, Option<u64>) = sum_staged(&planned.outputs, block);
    let staged: u64 = match staged {
        Some(staged) => staged,
        None => {
            return Err(storage_err("v4 staged artifact byte count overflow"));
        },
    };
    let build: V4OrdinalBuildMetrics = planned.build;
    let work: V4CompactionWork = planned.compaction;
    let buried: u64 = planned.tombstone_bytes;
    let before: u64 = saturating_sum(
        saturating_sum(saturating_sum(build.artifact_bytes, buried), work.write_bytes),
        staged,
    );
    let submitted: u64 = match before.checked_add(control) {
        Some(submitted) => submitted,
        None => {
            return Err(storage_err("v4 submitted write byte count overflow"));
        },
    };
    let blocks: u64 = match blocks {
        Some(blocks) => blocks,
        None => {
            return Err(storage_err("v4 staged write block count overflow"));
        },
    };
    let sorting: u64 = match planned.input_identities.checked_mul(96) {
        Some(sorting) => sorting,
        None => {
            return Err(storage_err("v4 sorting temporary byte count overflow"));
        },
    };
    let buffered: u64 = match planned.peak_buffered_records.checked_mul(24) {
        Some(buffered) => buffered,
        None => {
            return Err(storage_err("v4 external-sort buffer charge overflow"));
        },
    };
    Ok(
        V4OrdinalAppendMetrics {
            input_identities: planned.input_identities,
            input_tombstones: planned.input_tombstones,
            created_artifacts: saturating_sum(planned.delta_artifacts, work.created_artifacts),
            retained_artifacts: planned.retained_artifacts,
            physical_bytes_written: submitted,
            compactions: work.compactions,
            sequential_read_bytes: work.read_bytes,
            sequential_read_calls: work.read_calls,
            sequential_read_blocks: work.read_blocks,
            write_bytes: submitted,
            write_blocks: saturating_sum(
                saturating_sum(
                    saturating_sum(saturating_sum(build.write_blocks, 1), work.write_blocks),
                    blocks,
                ),
                2,
            ),
            peak_buffer_bytes: max_of(
                max_of(max_of(build.peak_buffer_bytes, 196_608), block),
                buffered,
            ),
            peak_temporary_bytes: saturating_sum(
                saturating_sum(
                    saturating_sum(
                        saturating_sum(
                            saturating_sum(build.peak_temporary_bytes, buried),
                            work.write_bytes,
                        ),
                        staged,
                    ),
                    control,
                ),
                sorting,
            ),
            fsync_operations: saturating_sum(
                saturating_sum(
                    saturating_sum(
                        saturating_sum(build.fsync_operations, 1),
                        work.fsync_operations,
                    ),
                    planned.outputs.len() as u64,
                ),
                2,
            ),
            prior_topology_rows_decoded: 0,
            per_record_seeks: 0,
        },
    )
}

} // verus!
