//! Binary-carry compaction of ordinal identity artifacts.
use vstd::prelude::*;
use vstd::string::*;

use crate::bytes::{lemma_be_bytes_of_value, read_be, sat_add, saturating_sum};
use crate::cancellation::{ask, goes_on, later_question};
use crate::carry_questions::{
    ask_forward, ask_group, ask_tombstones, carry_asks, forward_files_asks, group_asks,
    lemma_carry_asks, ranges_asks, step_asks, tombstones_asks,
};
use crate::error::{GfError, storage_err};
use crate::framing::{decode, decode_outcome, encode, Framed, pack};
use crate::keyed::{
    is_union, key_determines, key_order, Keyed, lemma_is_key_order, lemma_key_order,
    lemma_push_contains, ordered, same_items, sort_by_key, sorted,
};
use crate::merge_stops::{
    explain_forward_stop, explain_tombstone_stop, forward_files_stop, tombstone_runs_stop,
};
use crate::ordinal_artifacts::{
    finish_streamed_v4_range, increasing, range_fault, range_view, tombstone_fault,
    tombstones_view, V4OrdinalRangeWriter, write_v4_tombstone_artifact,
};
use crate::ordinal_construction::forward_view;
use crate::graded::{by_grade, sort_by_grade};
use crate::ordinal_format::{
    ArtifactFileView, ArtifactView, count_ordinal_blocks, Duplicated, find_artifact, finish_fault,
    finish_streamed_v4_artifact, held, installed, no_build_metrics, ordinal_blocks,
    OrdinalManifestView, RangeView, TombstonesView, V4ArtifactFile, V4OrdinalArtifact,
    V4OrdinalArtifactKind, V4OrdinalBuildMetrics, V4OrdinalIdentityManifest, V4OrdinalRange,
    V4OrdinalTombstones, views,
};
use crate::records::{ForwardRecord, NodeTombstone};

verus! {

/// The generations that each forward run closes: the base run from the first
/// generation on, every later run from the one after the run before.
pub open spec fn forward_intervals(forwards: Seq<ArtifactView>) -> Result<
    Seq<(u64, u64)>,
    Seq<char>,
>
    decreases forwards.len(),
{
    if forwards.len() == 0 {
        Err("v4 forward base generation is invalid"@)
    } else if forwards.len() == 1 {
        Ok(seq![(1, forwards[0].generation)])
    } else {
        match forward_intervals(forwards.drop_last()) {
            Err(text) => Err(text),
            Ok(before) => {
                let prior = forwards[forwards.len() - 2].generation;
                let last = forwards.last().generation;
                if prior == u64::MAX {
                    Err("v4 forward interval overflows"@)
                } else if last < prior + 1 {
                    Err("v4 forward generations do not increase"@)
                } else {
                    Ok(before.push(((prior + 1) as u64, last)))
                }
            },
        }
    }
}

proof fn lemma_intervals_fail(forwards: Seq<ArtifactView>, n: int)
    requires
        1 <= n <= forwards.len(),
        forward_intervals(forwards.take(n)) is Err,
    ensures
        forward_intervals(forwards) == forward_intervals(forwards.take(n)),
    decreases forwards.len(),
{
    if n < forwards.len() {
        assert(forwards.drop_last().take(n) =~= forwards.take(n));
        lemma_intervals_fail(forwards.drop_last(), n);
    } else {
        assert(forwards.take(n) =~= forwards);
    }
}

/// The intervals of forward runs follow on one another without a gap, up to
/// the generation of the last run.
pub proof fn lemma_intervals_contiguous(forwards: Seq<ArtifactView>)
    requires
        forward_intervals(forwards) is Ok,
    ensures
        ({
            let intervals = forward_intervals(forwards)->Ok_0;
            &&& intervals.len() == forwards.len()
            &&& intervals[0] == (1u64, forwards[0].generation)
            &&& forall|i: int|
                0 <= i < intervals.len() ==> (#[trigger] intervals[i]).1 == forwards[i].generation
            &&& forall|i: int|
                1 <= i < intervals.len() ==> (#[trigger] intervals[i]).0 == intervals[i - 1].1 + 1
                    && intervals[i].0 <= intervals[i].1
        }),
    decreases forwards.len(),
{
    if forwards.len() > 1 {
        lemma_intervals_contiguous(forwards.drop_last());
        let before = forward_intervals(forwards.drop_last())->Ok_0;
        let intervals = forward_intervals(forwards)->Ok_0;
        assert forall|i: int| 0 <= i < intervals.len() implies (#[trigger] intervals[i]).1
            == forwards[i].generation by {
            if i < before.len() {
                assert(intervals[i] == before[i]);
            }
        }
        assert forall|i: int| 1 <= i < intervals.len() implies (#[trigger] intervals[i]).0
            == intervals[i - 1].1 + 1 && intervals[i].0 <= intervals[i].1 by {
            assert(intervals[i - 1] == before[i - 1]);
            if i < before.len() {
                assert(intervals[i] == before[i]);
            }
        }
    }
}

/// First generation, last generation and position of each forward run.
pub fn v4_forward_intervals(forwards: &Vec<V4OrdinalArtifact>) -> (intervals: Result<
    Vec<(u64, u64, usize)>,
    GfError,
>)
    ensures
        ({
            let outcome = forward_intervals(views(forwards@));
            match intervals {
                Ok(intervals) => {
                    &&& outcome is Ok
                    &&& intervals@.len() == outcome->Ok_0.len()
                    &&& forall|i: int|
                        0 <= i < intervals@.len() ==> #[trigger] intervals@[i] == (
                            outcome->Ok_0[i].0,
                            outcome->Ok_0[i].1,
                            i as usize,
                        )
                },
                Err(error) => outcome is Err && error.is_storage(outcome->Err_0),
            }
        }),
{
    let ghost all = views(forwards@);
    if forwards.len() == 0 {
        return Err(storage_err("v4 forward base generation is invalid"));
    }
    let base: u64 = forwards[0].generation;
    let mut intervals: Vec<(u64, u64, usize)> = Vec::new();
    intervals.push((1, base, 0));
    let mut prior: u64 = base;
    let mut i: usize = 1;
    assert(all.take(1) =~= seq![all[0]]);
    while i < forwards.len()
        invariant
            1 <= i <= forwards@.len(),
            all == views(forwards@),
            prior == all[i - 1].generation,
            forward_intervals(all.take(i as int)) is Ok,
            intervals@.len() == i,
            forward_intervals(all.take(i as int))->Ok_0.len() == i,
            forall|k: int|
                0 <= k < i ==> #[trigger] intervals@[k] == (
                    forward_intervals(all.take(i as int))->Ok_0[k].0,
                    forward_intervals(all.take(i as int))->Ok_0[k].1,
                    k as usize,
                ),
        decreases forwards.len() - i,
    {
        proof {
            assert(all.take(i + 1).drop_last() =~= all.take(i as int));
            assert(all.take(i + 1)[i - 1] == all[i - 1]);
            assert(all[i as int] == forwards@[i as int]@);
        }
        let last: u64 = forwards[i].generation;
        let first: u64 = match prior.checked_add(1) {
            Some(first) => first,
            None => {
                proof {
                    lemma_intervals_fail(all, i + 1);
                }
                return Err(storage_err("v4 forward interval overflows"));
            },
        };
        if last < first {
            proof {
                lemma_intervals_fail(all, i + 1);
            }
            return Err(storage_err("v4 forward generations do not increase"));
        }
        intervals.push((first, last, i));
        prior = last;
        i = i + 1;
    }
    assert(all.take(i as int) =~= all);
    Ok(intervals)
}

/// The merge of two forward runs, after a record with key `previous`, or why
/// they cannot be merged.
pub open spec fn forward_merge(
    left: Seq<ForwardRecord>,
    right: Seq<ForwardRecord>,
    previous: Option<u128>,
) -> Result<Seq<ForwardRecord>, Seq<char>>
    decreases left.len() + right.len(),
{
    if left.len() == 0 && right.len() == 0 {
        Ok(Seq::empty())
    } else if left.len() > 0 && right.len() > 0 && left[0].uuid == right[0].uuid {
        if left[0].node_id != right[0].node_id {
            Err("v4 compaction observed UUID reuse"@)
        } else {
            preceded(
                right[0],
                forward_merge(left.skip(1), right.skip(1), Some(right[0].uuid)),
            )
        }
    } else {
        let from_left = left.len() > 0 && (right.len() == 0 || left[0].uuid < right[0].uuid);
        let next = if from_left {
            left[0]
        } else {
            right[0]
        };
        if previous is Some && previous->0 >= next.uuid {
            Err("v4 compaction input is not sorted unique"@)
        } else if from_left {
            preceded(next, forward_merge(left.skip(1), right, Some(next.uuid)))
        } else {
            preceded(next, forward_merge(left, right.skip(1), Some(next.uuid)))
        }
    }
}

/// A merge with one record in front.
pub open spec fn preceded(
    first: ForwardRecord,
    rest: Result<Seq<ForwardRecord>, Seq<char>>,
) -> Result<Seq<ForwardRecord>, Seq<char>> {
    match rest {
        Ok(rest) => Ok(seq![first] + rest),
        Err(text) => Err(text),
    }
}

/// Whether no UUID stands for two nodes.
pub open spec fn agree(left: Seq<ForwardRecord>, right: Seq<ForwardRecord>) -> bool {
    forall|i: int, j: int|
        0 <= i < left.len() && 0 <= j < right.len() && (#[trigger] left[i]).uuid == (
        #[trigger] right[j]).uuid ==> left[i].node_id == right[j].node_id
}

spec fn after_key(previous: Option<u128>, items: Seq<ForwardRecord>) -> bool {
    previous is Some ==> forall|i: int|
        0 <= i < items.len() ==> previous->0 < (#[trigger] items[i]).uuid
}

proof fn lemma_skip_ordered(items: Seq<ForwardRecord>)
    requires
        ordered(items),
        items.len() > 0,
    ensures
        ordered(items.skip(1)),
        after_key(Some(items[0].uuid), items.skip(1)),
        items =~= seq![items[0]] + items.skip(1),
        forall|item: ForwardRecord| #[trigger]
            items.contains(item) <==> item == items[0] || items.skip(1).contains(item),
{
    let rest = items.skip(1);
    assert forall|i: int, j: int| 0 <= i < j < rest.len() implies (#[trigger] rest[i]).key() < (
    #[trigger] rest[j]).key() by {
        assert(items[i + 1].key() < items[j + 1].key());
    }
    assert forall|i: int| 0 <= i < rest.len() implies items[0].uuid < (#[trigger] rest[i]).uuid by {
        assert(items[0].key() < items[i + 1].key());
    }
    assert forall|item: ForwardRecord| #[trigger]
        items.contains(item) <==> item == items[0] || rest.contains(item) by {
        if items.contains(item) {
            let i = choose|i: int| 0 <= i < items.len() && items[i] == item;
            if i > 0 {
                assert(rest[i - 1] == item);
            }
        }
        if rest.contains(item) {
            let i = choose|i: int| 0 <= i < rest.len() && rest[i] == item;
            assert(items[i + 1] == item);
        }
        if item == items[0] {
            assert(items[0] == item);
        }
    }
}

proof fn lemma_front_ordered(first: ForwardRecord, rest: Seq<ForwardRecord>)
    requires
        ordered(rest),
        after_key(Some(first.uuid), rest),
    ensures
        ordered(seq![first] + rest),
        forall|item: ForwardRecord| #[trigger]
            (seq![first] + rest).contains(item) <==> item == first || rest.contains(item),
{
    let all = seq![first] + rest;
    assert forall|i: int, j: int| 0 <= i < j < all.len() implies (#[trigger] all[i]).key() < (
    #[trigger] all[j]).key() by {
        if i > 0 {
            assert(rest[i - 1].key() < rest[j - 1].key());
        } else {
            assert(first.uuid < rest[j - 1].uuid);
        }
    }
    assert forall|item: ForwardRecord| #[trigger]
        all.contains(item) <==> item == first || rest.contains(item) by {
        if all.contains(item) {
            let i = choose|i: int| 0 <= i < all.len() && all[i] == item;
            if i > 0 {
                assert(rest[i - 1] == item);
            }
        }
        if rest.contains(item) {
            let i = choose|i: int| 0 <= i < rest.len() && rest[i] == item;
            assert(all[i + 1] == item);
        }
        if item == first {
            assert(all[0] == item);
        }
    }
}

/// Two ordered forward runs merge into the ordered run of the records of
/// both, exactly where no UUID stands for two nodes.
pub proof fn lemma_forward_merge(
    left: Seq<ForwardRecord>,
    right: Seq<ForwardRecord>,
    previous: Option<u128>,
)
    requires
        ordered(left),
        ordered(right),
        previous is Some ==> forall|i: int|
            0 <= i < left.len() ==> previous->0 < (#[trigger] left[i]).uuid,
        previous is Some ==> forall|i: int|
            0 <= i < right.len() ==> previous->0 < (#[trigger] right[i]).uuid,
    ensures
        match forward_merge(left, right, previous) {
            Ok(out) => {
                &&& agree(left, right)
                &&& ordered(out)
                &&& is_union(out, left, right)
            },
            Err(text) => !agree(left, right) && text == "v4 compaction observed UUID reuse"@,
        },
    decreases left.len() + right.len(),
{
    if left.len() == 0 && right.len() == 0 {
    } else if left.len() > 0 && right.len() > 0 && left[0].uuid == right[0].uuid {
        lemma_skip_ordered(left);
        lemma_skip_ordered(right);
        if left[0].node_id == right[0].node_id {
            let l = left.skip(1);
            let r = right.skip(1);
            lemma_forward_merge(l, r, Some(right[0].uuid));
            match forward_merge(l, r, Some(right[0].uuid)) {
                Ok(rest) => {
                    assert(after_key(Some(right[0].uuid), rest)) by {
                        assert forall|i: int| 0 <= i < rest.len() implies right[0].uuid < (
                        #[trigger] rest[i]).uuid by {
                            assert(rest.contains(rest[i]));
                            assert(l.contains(rest[i]) || r.contains(rest[i]));
                        }
                    }
                    lemma_front_ordered(right[0], rest);
                    assert forall|i: int, j: int|
                        0 <= i < left.len() && 0 <= j < right.len() && (#[trigger] left[i]).uuid
                            == (#[trigger] right[j]).uuid implies left[i].node_id
                        == right[j].node_id by {
                        if i > 0 && j > 0 {
                            assert(l[i - 1].uuid == r[j - 1].uuid);
                        } else if i > 0 {
                            assert(l[i - 1].uuid > left[0].uuid);
                        } else if j > 0 {
                            assert(r[j - 1].uuid > right[0].uuid);
                        }
                    }
                    let out = seq![right[0]] + rest;
                    assert(left[0] == right[0]);
                    assert forall|item: ForwardRecord| #[trigger]
                        out.contains(item) <==> left.contains(item) || right.contains(item) by {
                        assert(rest.contains(item) <==> l.contains(item) || r.contains(item));
                    }
                },
                Err(_) => {
                    let (i, j) = choose|i: int, j: int|
                        0 <= i < l.len() && 0 <= j < r.len() && (#[trigger] l[i]).uuid == (
                        #[trigger] r[j]).uuid && l[i].node_id != r[j].node_id;
                    assert(left[i + 1].uuid == right[j + 1].uuid);
                },
            }
        } else {
            assert(left[0].uuid == right[0].uuid);
        }
    } else {
        let from_left = left.len() > 0 && (right.len() == 0 || left[0].uuid < right[0].uuid);
        let (l, r) = if from_left {
            (left.skip(1), right)
        } else {
            (left, right.skip(1))
        };
        let next = if from_left {
            left[0]
        } else {
            right[0]
        };
        if from_left {
            lemma_skip_ordered(left);
            assert forall|i: int| 0 <= i < r.len() implies next.uuid < (#[trigger] r[i]).uuid by {
                if i > 0 {
                    assert(right[0].key() < right[i].key());
                }
            }
        } else {
            lemma_skip_ordered(right);
            assert forall|i: int| 0 <= i < l.len() implies next.uuid < (#[trigger] l[i]).uuid by {
                if i > 0 {
                    assert(left[0].key() < left[i].key());
                }
            }
        }
        lemma_forward_merge(l, r, Some(next.uuid));
        match forward_merge(l, r, Some(next.uuid)) {
            Ok(rest) => {
                assert(after_key(Some(next.uuid), rest)) by {
                    assert forall|i: int| 0 <= i < rest.len() implies next.uuid < (
                    #[trigger] rest[i]).uuid by {
                        assert(rest.contains(rest[i]));
                        assert(l.contains(rest[i]) || r.contains(rest[i]));
                    }
                }
                lemma_front_ordered(next, rest);
                assert forall|i: int, j: int|
                    0 <= i < left.len() && 0 <= j < right.len() && (#[trigger] left[i]).uuid == (
                    #[trigger] right[j]).uuid implies left[i].node_id == right[j].node_id by {
                    if from_left && i > 0 {
                        assert(l[i - 1].uuid == r[j].uuid);
                    } else if !from_left && j > 0 {
                        assert(l[i].uuid == r[j - 1].uuid);
                    } else if from_left {
                        assert(r[j].uuid > next.uuid);
                    } else {
                        assert(l[i].uuid > next.uuid);
                    }
                }
                let out = seq![next] + rest;
                assert forall|item: ForwardRecord| #[trigger]
                    out.contains(item) <==> left.contains(item) || right.contains(item) by {
                    assert(rest.contains(item) <==> l.contains(item) || r.contains(item));
                }
            },
            Err(_) => {
                let (i, j) = choose|i: int, j: int|
                    0 <= i < l.len() && 0 <= j < r.len() && (#[trigger] l[i]).uuid == (
                    #[trigger] r[j]).uuid && l[i].node_id != r[j].node_id;
                if from_left {
                    assert(left[i + 1].uuid == right[j].uuid);
                } else {
                    assert(left[i].uuid == right[j + 1].uuid);
                }
            },
        }
    }
}

/// Merge two forward runs record by record.
pub fn merge_forward_records(left: &Vec<ForwardRecord>, right: &Vec<ForwardRecord>) -> (merged:
    Result<Vec<ForwardRecord>, GfError>)
    ensures
        ({
            let outcome = forward_merge(left@, right@, None);
            match merged {
                Ok(merged) => outcome == Ok::<Seq<ForwardRecord>, Seq<char>>(merged@),
                Err(error) => outcome is Err && error.is_storage(outcome->Err_0),
            }
        }),
{
    let ghost outcome = forward_merge(left@, right@, None);
    let mut merged: Vec<ForwardRecord> = Vec::new();
    let mut previous: Option<u128> = None;
    let mut i: usize = 0;
    let mut j: usize = 0;
    assert(left@.skip(0) =~= left@);
    assert(right@.skip(0) =~= right@);
    assert(outcome is Ok ==> merged@ + outcome->Ok_0 =~= outcome->Ok_0);
    while i < left.len() || j < right.len()
        invariant
            i <= left@.len(),
            j <= right@.len(),
            outcome == forward_merge(left@, right@, None),
            ({
                let rest = forward_merge(left@.skip(i as int), right@.skip(j as int), previous);
                match outcome {
                    Ok(all) => rest is Ok && all == merged@ + rest->Ok_0,
                    Err(text) => rest == Err::<Seq<ForwardRecord>, Seq<char>>(text),
                }
            }),
        decreases left.len() - i + right.len() - j,
    {
        let ghost l = left@.skip(i as int);
        let ghost r = right@.skip(j as int);
        let ghost before = merged@;
        let ghost rest = forward_merge(l, r, previous);
        proof {
            if i < left@.len() {
                assert(l.skip(1) =~= left@.skip(i + 1));
            }
            if j < right@.len() {
                assert(r.skip(1) =~= right@.skip(j + 1));
            }
        }
        if i < left.len() && j < right.len() && left[i].uuid == right[j].uuid {
            if left[i].node_id != right[j].node_id {
                return Err(storage_err("v4 compaction observed UUID reuse"));
            }
            previous = Some(right[j].uuid);
            merged.push(right[j]);
            i = i + 1;
            j = j + 1;
        } else {
            let from_left: bool = i < left.len() && (j >= right.len() || left[i].uuid
                < right[j].uuid);
            let next: ForwardRecord = if from_left {
                left[i]
            } else {
                right[j]
            };
            let late: bool = match previous {
                Some(previous) => previous >= next.uuid,
                None => false,
            };
            if late {
                return Err(storage_err("v4 compaction input is not sorted unique"));
            }
            previous = Some(next.uuid);
            merged.push(next);
            if from_left {
                i = i + 1;
            } else {
                j = j + 1;
            }
        }
        proof {
            let after = forward_merge(left@.skip(i as int), right@.skip(j as int), previous);
            assert(rest == preceded(merged@.last(), after));
            if after is Ok {
                assert(before + (seq![merged@.last()] + after->Ok_0) =~= merged@ + after->Ok_0);
            }
        }
    }
    proof {
        assert(left@.skip(i as int) =~= Seq::<ForwardRecord>::empty());
        assert(right@.skip(j as int) =~= Seq::<ForwardRecord>::empty());
        assert(merged@ + Seq::<ForwardRecord>::empty() =~= merged@);
    }
    Ok(merged)
}

/// Work of a compaction.
#[derive(Clone, Copy, Debug, PartialEq, Eq, Structural)]
pub struct V4CompactionWork {
    /// Intervals merged.
    pub compactions: u64,
    /// Artifacts written.
    pub created_artifacts: u64,
    /// Bytes read.
    pub read_bytes: u64,
    /// Reads of one block each.
    pub read_calls: u64,
    /// Blocks read.
    pub read_blocks: u64,
    /// Bytes written.
    pub write_bytes: u64,
    /// Blocks written.
    pub write_blocks: u64,
    /// File synchronizations.
    pub fsync_operations: u64,
}

/// No work.
pub open spec fn no_compaction_work() -> V4CompactionWork {
    V4CompactionWork {
        compactions: 0,
        created_artifacts: 0,
        read_bytes: 0,
        read_calls: 0,
        read_blocks: 0,
        write_bytes: 0,
        write_blocks: 0,
        fsync_operations: 0,
    }
}

/// Work after reading `bytes` more bytes.
pub open spec fn after_read(work: V4CompactionWork, bytes: u64) -> V4CompactionWork {
    V4CompactionWork {
        read_bytes: sat_add(work.read_bytes, bytes),
        read_calls: sat_add(work.read_calls, ordinal_blocks(bytes as nat) as u64),
        read_blocks: sat_add(work.read_blocks, ordinal_blocks(bytes as nat) as u64),
        ..work
    }
}

/// Work after writing one more artifact of `bytes` bytes.
pub open spec fn after_write(work: V4CompactionWork, bytes: u64) -> V4CompactionWork {
    V4CompactionWork {
        created_artifacts: sat_add(work.created_artifacts, 1),
        write_bytes: sat_add(work.write_bytes, bytes),
        write_blocks: sat_add(work.write_blocks, ordinal_blocks(bytes as nat) as u64),
        fsync_operations: sat_add(work.fsync_operations, 1),
        ..work
    }
}

impl V4CompactionWork {
    /// No work.
    pub fn none() -> (work: V4CompactionWork)
        ensures
            work == no_compaction_work(),
    {
        V4CompactionWork {
            compactions: 0,
            created_artifacts: 0,
            read_bytes: 0,
            read_calls: 0,
            read_blocks: 0,
            write_bytes: 0,
            write_blocks: 0,
            fsync_operations: 0,
        }
    }

    fn read(self, bytes: u64) -> (work: V4CompactionWork)
        ensures
            work == after_read(self, bytes),
    {
        let mut work: V4CompactionWork = self;
        let blocks: u64 = count_ordinal_blocks(bytes);
        work.read_bytes = saturating_sum(work.read_bytes, bytes);
        work.read_calls = saturating_sum(work.read_calls, blocks);
        work.read_blocks = saturating_sum(work.read_blocks, blocks);
        work
    }

    fn wrote(self, bytes: u64) -> (work: V4CompactionWork)
        ensures
            work == after_write(self, bytes),
    {
        let mut work: V4CompactionWork = self;
        let blocks: u64 = count_ordinal_blocks(bytes);
        work.created_artifacts = saturating_sum(work.created_artifacts, 1);
        work.write_bytes = saturating_sum(work.write_bytes, bytes);
        work.write_blocks = saturating_sum(work.write_blocks, blocks);
        work.fsync_operations = saturating_sum(work.fsync_operations, 1);
        work
    }
}

/// The contents of an input: among the new files, or else among the retained
/// ones.
pub open spec fn planned(
    files: Seq<ArtifactFileView>,
    pinned: Seq<ArtifactFileView>,
    name: Seq<char>,
) -> Option<Seq<u8>> {
    match held(files, name) {
        Some(content) => Some(content),
        None => held(pinned, name),
    }
}

/// Find the contents of an input.
pub fn v4_planned_file<'a>(
    files: &'a Vec<V4ArtifactFile>,
    pinned: &'a Vec<V4ArtifactFile>,
    name: &String,
) -> (content: Result<&'a Vec<u8>, GfError>)
    ensures
        match content {
            Ok(content) => planned(views(files@), views(pinned@), name@) == Some(content@),
            Err(error) => planned(views(files@), views(pinned@), name@) is None
                && error.is_storage("authenticated v4 update input is absent"@),
        },
{
    match find_artifact(files, name) {
        Some(at) => Ok(&files[at].bytes),
        None => match find_artifact(pinned, name) {
            Some(at) => Ok(&pinned[at].bytes),
            None => Err(storage_err("authenticated v4 update input is absent")),
        },
    }
}

/// New files and work of a compaction.
#[verifier::ext_equal]
pub struct CompactState {
    pub files: Seq<ArtifactFileView>,
    pub work: V4CompactionWork,
}

/// The outcome of work that asks so many questions whether to go on, unless one
/// of them is answered with no.
pub open spec fn unless<T>(
    outcome: Result<T, Seq<char>>,
    cancelled: Option<u64>,
    asked: nat,
) -> Result<T, Seq<char>> {
    if goes_on(cancelled, asked) {
        outcome
    } else {
        Err("construction ordinal compaction cancelled"@)
    }
}

/// The records of two forward files merged, or why they cannot be.
pub open spec fn merged_records(left: Seq<u8>, right: Seq<u8>) -> Result<
    Seq<ForwardRecord>,
    Seq<char>,
> {
    match (decode_outcome::<ForwardRecord>(left), decode_outcome::<ForwardRecord>(right)) {
        (Ok(one), Ok(two)) => forward_merge(one, two, None),
        _ => Err(forward_files_stop(left, right)),
    }
}

/// The artifact of two merged forward files and the state after it, or why
/// they cannot be merged.
pub open spec fn merged_forward(
    before: CompactState,
    left: Seq<u8>,
    right: Seq<u8>,
    generation: u64,
) -> Result<(ArtifactView, CompactState), Seq<char>> {
    match merged_records(left, right) {
        Err(text) => Err(text),
        Ok(records) => {
            let artifact = forward_view(records, generation);
            match finish_fault(before.files, no_build_metrics(), artifact) {
                Some(text) => Err(text),
                None => Ok(
                    (
                        artifact,
                        CompactState {
                            files: installed(
                                before.files,
                                ArtifactFileView { descriptor: artifact, bytes: pack(records) },
                            ),
                            work: after_write(
                                after_read(
                                    before.work,
                                    sat_add(left.len() as u64, right.len() as u64),
                                ),
                                artifact.bytes,
                            ),
                        },
                    ),
                ),
            }
        },
    }
}

/// Merge two forward files into a new artifact. The merge asks for each record
/// whether to go on; with the artifact it gives the questions from the next one
/// on.
pub fn merge_v4_forward_artifacts(
    left: &Vec<u8>,
    right: &Vec<u8>,
    generation: u64,
    files: &mut Vec<V4ArtifactFile>,
    work: &mut V4CompactionWork,
    cancelled: Option<u64>,
) -> (artifact: Result<(V4OrdinalArtifact, Option<u64>), GfError>)
    ensures
        ({
            let before = CompactState { files: views(old(files)@), work: *old(work) };
            let asked = forward_files_asks(left@, right@);
            let outcome = unless(
                merged_forward(before, left@, right@, generation),
                cancelled,
                asked,
            );
            match artifact {
                Ok((artifact, rest)) => {
                    &&& outcome == Ok::<(ArtifactView, CompactState), Seq<char>>(
                        (
                            artifact@,
                            CompactState { files: views(final(files)@), work: *final(work) },
                        ),
                    )
                    &&& rest == later_question(cancelled, asked)
                },
                Err(error) => {
                    &&& outcome is Err
                    &&& error.is_storage(outcome->Err_0)
                    &&& final(files)@ == old(files)@
                    &&& *final(work) == *old(work)
                },
            }
        }),
{
    let rest: Option<u64> = match ask_forward(left, right, cancelled) {
        Some(rest) => rest,
        None => {
            return Err(storage_err("construction ordinal compaction cancelled"));
        },
    };
    let left_records: Vec<ForwardRecord> = match decode::<ForwardRecord>(left.as_slice()) {
        Ok(records) => records,
        Err(_) => {
            return Err(explain_forward_stop(left, right));
        },
    };
    let right_records: Vec<ForwardRecord> = match decode::<ForwardRecord>(right.as_slice()) {
        Ok(records) => records,
        Err(_) => {
            return Err(explain_forward_stop(left, right));
        },
    };
    let records: Vec<ForwardRecord> = match merge_forward_records(&left_records, &right_records) {
        Ok(records) => records,
        Err(error) => {
            return Err(error);
        },
    };
    let content: Vec<u8> = encode(&records);
    let bytes: u64 = content.len() as u64;
    let mut metrics: V4OrdinalBuildMetrics = V4OrdinalBuildMetrics::none();
    let input: u64 = saturating_sum(left.len() as u64, right.len() as u64);
    match finish_streamed_v4_artifact(
        files,
        content,
        "forward-v4",
        generation,
        V4OrdinalArtifactKind::ForwardIdentities,
        &mut metrics,
    ) {
        Ok(artifact) => {
            *work = work.read(input).wrote(bytes);
            Ok((artifact, rest))
        },
        Err(error) => Err(error),
    }
}

/// Whether a generation is in an interval.
pub open spec fn within(generation: u64, first: u64, last: u64) -> bool {
    first <= generation <= last
}

/// The last identifier of a range.
pub open spec fn range_last(range: RangeView) -> int {
    range.first_node_id + range.count - 1
}

/// Where the ranges of an interval that continue one another end.
pub open spec fn group_end(ranges: Seq<RangeView>, end: int, first: u64, last: u64) -> int
    decreases ranges.len() - end,
{
    if 0 < end < ranges.len() && within(ranges[end].artifact.generation, first, last)
        && range_last(ranges[end - 1]) + 1 == ranges[end].first_node_id {
        group_end(ranges, end + 1, first, last)
    } else {
        end
    }
}

/// The contents of neighbouring ranges one after another and the work of
/// reading them, or what is wrong with the first bad one.
pub open spec fn group_content(
    ranges: Seq<RangeView>,
    before: CompactState,
    pinned: Seq<ArtifactFileView>,
) -> Result<(Seq<u8>, V4CompactionWork), Seq<char>>
    decreases ranges.len(),
{
    if ranges.len() == 0 {
        Ok((Seq::empty(), before.work))
    } else {
        match group_content(ranges.drop_last(), before, pinned) {
            Err(text) => Err(text),
            Ok((content, work)) => match planned(
                before.files,
                pinned,
                ranges.last().artifact.name,
            ) {
                None => Err("authenticated v4 update input is absent"@),
                Some(more) => if more.len() % 16 != 0 {
                    Err("truncated fixed-width index record"@)
                } else {
                    Ok((content + more, after_read(work, ranges.last().artifact.bytes)))
                },
            },
        }
    }
}

/// The range of neighbouring ranges and the state after it, or why they
/// cannot be merged.
pub open spec fn merged_group(
    ranges: Seq<RangeView>,
    before: CompactState,
    pinned: Seq<ArtifactFileView>,
    generation: u64,
) -> Result<(RangeView, CompactState), Seq<char>> {
    match group_content(ranges, before, pinned) {
        Err(text) => Err(text),
        Ok((content, work)) => {
            let range = range_view(ranges[0].first_node_id, content, generation);
            match range_fault(before.files, no_build_metrics(), content, generation) {
                Some(text) => Err(text),
                None => Ok(
                    (
                        range,
                        CompactState {
                            files: installed(
                                before.files,
                                ArtifactFileView { descriptor: range.artifact, bytes: content },
                            ),
                            work: after_write(work, range.artifact.bytes),
                        },
                    ),
                ),
            }
        },
    }
}

/// The ranges from `cursor` on, those of the interval that continue one
/// another merged, after what is already there.
pub open spec fn compacted_ranges(
    ranges: Seq<RangeView>,
    cursor: int,
    done: Seq<RangeView>,
    before: CompactState,
    pinned: Seq<ArtifactFileView>,
    first: u64,
    last: u64,
) -> Result<(Seq<RangeView>, CompactState), Seq<char>>
    decreases ranges.len() - cursor,
{
    if cursor < 0 || cursor >= ranges.len() {
        Ok((done, before))
    } else {
        let end = group_end(ranges, cursor + 1, first, last);
        if !within(ranges[cursor].artifact.generation, first, last) {
            compacted_ranges(
                ranges,
                cursor + 1,
                done.push(ranges[cursor]),
                before,
                pinned,
                first,
                last,
            )
        } else if end <= cursor || end > ranges.len() || range_last(ranges[end - 1]) > u64::MAX {
            Err("v4 ordinal range overflows"@)
        } else if end == cursor + 1 {
            compacted_ranges(
                ranges,
                end,
                done.push(ranges[cursor]),
                before,
                pinned,
                first,
                last,
            )
        } else {
            match merged_group(ranges.subrange(cursor, end), before, pinned, last) {
                Err(text) => Err(text),
                Ok((merged, next)) => compacted_ranges(
                    ranges,
                    end,
                    done.push(merged),
                    next,
                    pinned,
                    first,
                    last,
                ),
            }
        }
    }
}

/// Whether no range of an interval of generations is empty.
pub open spec fn filled(ranges: Seq<RangeView>, first: u64, last: u64) -> bool {
    forall|i: int|
        0 <= i < ranges.len() && within((#[trigger] ranges[i]).artifact.generation, first, last)
            ==> ranges[i].count > 0
}

/// Whether the empty ranges among some were there before.
pub open spec fn no_new_empties(ranges: Seq<RangeView>, before: Seq<RangeView>) -> bool {
    forall|i: int|
        0 <= i < ranges.len() && (#[trigger] ranges[i]).count == 0 ==> before.contains(ranges[i])
}

fn find_group_end(ranges: &Vec<V4OrdinalRange>, start: usize, first: u64, last: u64) -> (end:
    Result<usize, GfError>)
    requires
        start < ranges.len(),
        filled(views(ranges@), first, last),
        within(ranges@[start as int].artifact.generation, first, last),
    ensures
        ({
            let all = views(ranges@);
            let want = group_end(all, start + 1, first, last);
            match end {
                Ok(end) => end == want && start < end <= all.len() && range_last(all[end - 1])
                    <= u64::MAX,
                Err(error) => want > start && range_last(all[want - 1]) > u64::MAX
                    && error.is_storage("v4 ordinal range overflows"@),
            }
        }),
{
    let ghost all = views(ranges@);
    let mut end: usize = start + 1;
    assert(all[start as int].count > 0);
    assert(all[start as int] == ranges@[start as int]@);
    let mut prior_end: u64 = match ranges[start].first_node_id.checked_add(
        ranges[start].count - 1,
    ) {
        Some(last) => last,
        None => {
            return Err(storage_err("v4 ordinal range overflows"));
        },
    };
    while end < ranges.len()
        invariant_except_break
            start < end <= ranges@.len(),
            all == views(ranges@),
            filled(all, first, last),
            prior_end == range_last(all[end - 1]),
            group_end(all, start + 1, first, last) == group_end(all, end as int, first, last),
        ensures
            start < end <= all.len(),
            range_last(all[end - 1]) <= u64::MAX,
            end == group_end(all, start + 1, first, last),
        decreases ranges.len() - end,
    {
        assert(all[end as int] == ranges@[end as int]@);
        let next: &V4OrdinalRange = &ranges[end];
        let expected: Option<u64> = prior_end.checked_add(1);
        let continues: bool = match expected {
            Some(expected) => expected == next.first_node_id,
            None => false,
        };
        if next.artifact.generation < first || next.artifact.generation > last || !continues {
            break;
        }
        assert(all[end as int].count > 0);
        prior_end =
        match next.first_node_id.checked_add(next.count - 1) {
            Some(last) => last,
            None => {
                proof {
                    let want = group_end(all, end + 1, first, last);
                    assert(range_last(all[end as int]) > u64::MAX);
                    if end + 1 < all.len() {
                        assert(range_last(all[end as int]) + 1 != all[end + 1].first_node_id);
                    }
                    assert(want == end + 1);
                }
                return Err(storage_err("v4 ordinal range overflows"));
            },
        };
        end = end + 1;
    }
    Ok(end)
}

fn push_uuids(writer: &mut V4OrdinalRangeWriter, content: &Vec<u8>)
    requires
        old(writer).wf(),
        content@.len() % 16 == 0,
    ensures
        final(writer).wf(),
        final(writer).first() == old(writer).first(),
        final(writer).bytes() == old(writer).bytes() + content@,
{
    let ghost before = writer.bytes();
    let mut at: usize = 0;
    assert(content@.take(0) =~= Seq::<u8>::empty());
    assert(before + Seq::<u8>::empty() =~= before);
    while at < content.len()
        invariant
            at <= content.len(),
            at % 16 == 0,
            content.len() % 16 == 0,
            writer.wf(),
            writer.first() == old(writer).first(),
            writer.bytes() == before + content@.take(at as int),
        decreases content.len() - at,
    {
        let uuid: u128 = read_be(content.as_slice(), at, 16);
        writer.push(uuid);
        proof {
            let piece = content@.subrange(at as int, at + 16);
            lemma_be_bytes_of_value(piece);
            assert(content@.take(at + 16) =~= content@.take(at as int) + piece);
            assert(writer.bytes() =~= before + content@.take(at + 16));
        }
        at = at + 16;
    }
    assert(content@.take(at as int) =~= content@);
}

/// Copy neighbouring ranges into one writer.
fn copy_group(
    ranges: &Vec<V4OrdinalRange>,
    start: usize,
    end: usize,
    files: &Vec<V4ArtifactFile>,
    pinned: &Vec<V4ArtifactFile>,
    work: V4CompactionWork,
) -> (copied: Result<(V4OrdinalRangeWriter, V4CompactionWork), GfError>)
    requires
        start < end <= ranges@.len(),
    ensures
        ({
            let before = CompactState { files: views(files@), work };
            let outcome = group_content(
                views(ranges@).subrange(start as int, end as int),
                before,
                views(pinned@),
            );
            match copied {
                Ok((writer, after)) => {
                    &&& writer.wf()
                    &&& writer.first() == ranges@[start as int].first_node_id
                    &&& outcome == Ok::<(Seq<u8>, V4CompactionWork), Seq<char>>(
                        (writer.bytes(), after),
                    )
                },
                Err(error) => outcome is Err && error.is_storage(outcome->Err_0),
            }
        }),
{
    let ghost all = views(ranges@);
    let ghost group = all.subrange(start as int, end as int);
    let ghost before = CompactState { files: views(files@), work };
    let mut writer: V4OrdinalRangeWriter = V4OrdinalRangeWriter::new(ranges[start].first_node_id);
    let mut after: V4CompactionWork = work;
    let mut at: usize = start;
    assert(group.take(0) =~= Seq::<RangeView>::empty());
    while at < end
        invariant
            start <= at <= end <= ranges@.len(),
            all == views(ranges@),
            group == all.subrange(start as int, end as int),
            before == (CompactState { files: views(files@), work }),
            writer.wf(),
            writer.first() == ranges@[start as int].first_node_id,
            group_content(group.take(at - start), before, views(pinned@)) == Ok::<
                (Seq<u8>, V4CompactionWork),
                Seq<char>,
            >((writer.bytes(), after)),
        decreases end - at,
    {
        proof {
            assert(group.take(at - start + 1).drop_last() =~= group.take(at - start));
            assert(group.take(at - start + 1).last() == ranges@[at as int]@);
        }
        let content: &Vec<u8> = match v4_planned_file(files, pinned, &ranges[at].artifact.name) {
            Ok(content) => content,
            Err(error) => {
                proof {
                    lemma_group_fails(group, before, views(pinned@), at - start + 1);
                }
                return Err(error);
            },
        };
        if content.len() % 16 != 0 {
            proof {
                lemma_group_fails(group, before, views(pinned@), at - start + 1);
            }
            return Err(storage_err("truncated fixed-width index record"));
        }
        push_uuids(&mut writer, content);
        after = after.read(ranges[at].artifact.bytes);
        at = at + 1;
    }
    assert(group.take(at - start) =~= group);
    Ok((writer, after))
}

proof fn lemma_group_fails(
    ranges: Seq<RangeView>,
    before: CompactState,
    pinned: Seq<ArtifactFileView>,
    n: int,
)
    requires
        0 <= n <= ranges.len(),
        group_content(ranges.take(n), before, pinned) is Err,
    ensures
        group_content(ranges, before, pinned) == group_content(ranges.take(n), before, pinned),
    decreases ranges.len(),
{
    if n < ranges.len() {
        assert(ranges.drop_last().take(n) =~= ranges.take(n));
        lemma_group_fails(ranges.drop_last(), before, pinned, n);
    } else {
        assert(ranges.take(n) =~= ranges);
    }
}

/// Merge the ranges of an interval that continue one another. The merge asks
/// for each identity that it copies whether to go on; with the ranges it gives
/// the questions from the next one on.
#[verifier::rlimit(60)]
pub fn compact_v4_ordinal_interval(
    pinned: &Vec<V4ArtifactFile>,
    ranges: &Vec<V4OrdinalRange>,
    first: u64,
    last: u64,
    files: &mut Vec<V4ArtifactFile>,
    work: &mut V4CompactionWork,
    cancelled: Option<u64>,
) -> (compacted: Result<(Vec<V4OrdinalRange>, Option<u64>), GfError>)
    requires
        filled(views(ranges@), first, last),
    ensures
        ({
            let before = CompactState { files: views(old(files)@), work: *old(work) };
            let asked = ranges_asks(views(ranges@), 0, before, views(pinned@), first, last);
            let outcome = unless(
                compacted_ranges(
                    views(ranges@),
                    0,
                    Seq::empty(),
                    before,
                    views(pinned@),
                    first,
                    last,
                ),
                cancelled,
                asked,
            );
            match compacted {
                Ok((compacted, rest)) => {
                    &&& outcome == Ok::<(Seq<RangeView>, CompactState), Seq<char>>(
                        (
                            views(compacted@),
                            CompactState { files: views(final(files)@), work: *final(work) },
                        ),
                    )
                    &&& no_new_empties(views(compacted@), views(ranges@))
                    &&& rest == later_question(cancelled, asked)
                },
                Err(error) => outcome is Err && error.is_storage(outcome->Err_0),
            }
        }),
        views(old(files)@).is_prefix_of(views(final(files)@)),
{
    let ghost all = views(ranges@);
    let ghost start_files = views(files@);
    let ghost outcome = compacted_ranges(
        all,
        0,
        Seq::empty(),
        CompactState { files: views(files@), work: *work },
        views(pinned@),
        first,
        last,
    );
    let ghost all_asked = ranges_asks(
        all,
        0,
        CompactState { files: views(files@), work: *work },
        views(pinned@),
        first,
        last,
    );
    let ghost mut asked: nat = 0;
    let mut rest: Option<u64> = cancelled;
    let mut done: Vec<V4OrdinalRange> = Vec::new();
    let mut cursor: usize = 0;
    assert(views(done@) =~= Seq::<RangeView>::empty());
    while cursor < ranges.len()
        invariant
            cursor <= ranges@.len(),
            all == views(ranges@),
            filled(all, first, last),
            no_new_empties(views(done@), all),
            start_files == views(old(files)@),
            start_files.is_prefix_of(views(files@)),
            all_asked == ranges_asks(
                all,
                0,
                CompactState { files: views(old(files)@), work: *old(work) },
                views(pinned@),
                first,
                last,
            ),
            all_asked == asked + ranges_asks(
                all,
                cursor as int,
                CompactState { files: views(files@), work: *work },
                views(pinned@),
                first,
                last,
            ),
            goes_on(cancelled, asked),
            rest == later_question(cancelled, asked),
            outcome == compacted_ranges(
                all,
                0,
                Seq::empty(),
                CompactState { files: views(old(files)@), work: *old(work) },
                views(pinned@),
                first,
                last,
            ),
            outcome == compacted_ranges(
                all,
                cursor as int,
                views(done@),
                CompactState { files: views(files@), work: *work },
                views(pinned@),
                first,
                last,
            ),
        decreases ranges.len() - cursor,
    {
        let ghost before_done = done@;
        assert(all[cursor as int] == ranges@[cursor as int]@);
        let generation: u64 = ranges[cursor].artifact.generation;
        if generation < first || generation > last {
            done.push(ranges[cursor].duplicate());
            assert(views(done@) =~= views(before_done).push(all[cursor as int]));
            assert(all.contains(all[cursor as int]));
            cursor = cursor + 1;
            continue ;
        }
        let end: usize = match find_group_end(ranges, cursor, first, last) {
            Ok(end) => end,
            Err(error) => {
                return Err(error);
            },
        };
        if end == cursor + 1 {
            done.push(ranges[cursor].duplicate());
            assert(views(done@) =~= views(before_done).push(all[cursor as int]));
            assert(all.contains(all[cursor as int]));
            cursor = end;
            continue ;
        }
        let ghost group = all.subrange(cursor as int, end as int);
        let ghost old_files = views(files@);
        assert(group[0] == all[cursor as int]);
        rest =
        match ask_group(ranges, cursor, end, files, pinned, rest) {
            Some(rest) => rest,
            None => {
                return Err(storage_err("construction ordinal compaction cancelled"));
            },
        };
        proof {
            asked = asked + group_asks(group, 0, old_files, views(pinned@));
        }
        let (writer, read): (V4OrdinalRangeWriter, V4CompactionWork) = match copy_group(
            ranges,
            cursor,
            end,
            files,
            pinned,
            *work,
        ) {
            Ok(copied) => copied,
            Err(error) => {
                return Err(error);
            },
        };
        let len: u64 = writer.len();
        let mut metrics: V4OrdinalBuildMetrics = V4OrdinalBuildMetrics::none();
        let merged: V4OrdinalRange = match finish_streamed_v4_range(
            last,
            writer,
            files,
            &mut metrics,
        ) {
            Ok(merged) => merged,
            Err(error) => {
                return Err(error);
            },
        };
        *work = read.wrote(len);
        proof {
            assert(merged@.count > 0) by {
                assert(len > 0 && len % 16 == 0);
                assert(merged@.count == len / 16);
            }
        }
        let ghost merged_view = merged@;
        done.push(merged);
        assert(views(done@) =~= views(before_done).push(merged_view));
        cursor = end;
    }
    Ok((done, rest))
}

/// Whether identifiers are nonzero and never decrease.
pub open spec fn settled(ids: Seq<NodeTombstone>) -> bool {
    &&& sorted(ids)
    &&& forall|i: int| 0 <= i < ids.len() ==> (#[trigger] ids[i]).node_id != 0
}

/// The identifiers of tombstone runs one after another, or what is wrong with
/// the first bad run.
pub open spec fn gathered_ids(
    runs: Seq<TombstonesView>,
    files: Seq<ArtifactFileView>,
    pinned: Seq<ArtifactFileView>,
) -> Result<Seq<NodeTombstone>, Seq<char>>
    decreases runs.len(),
{
    if runs.len() == 0 {
        Ok(Seq::empty())
    } else {
        match gathered_ids(runs.drop_last(), files, pinned) {
            Err(text) => Err(text),
            Ok(ids) => match planned(files, pinned, runs.last().artifact.name) {
                None => Err("authenticated v4 update input is absent"@),
                Some(content) => match decode_outcome::<NodeTombstone>(content) {
                    Err(text) => Err(text),
                    Ok(more) => if settled(more) {
                        Ok(ids + more)
                    } else {
                        Err("v4 tombstone stream is not strictly increasing"@)
                    },
                },
            },
        }
    }
}

/// Work after reading some tombstone runs.
pub open spec fn tombstones_read(
    work: V4CompactionWork,
    runs: Seq<TombstonesView>,
) -> V4CompactionWork
    decreases runs.len(),
{
    if runs.len() == 0 {
        work
    } else {
        after_read(tombstones_read(work, runs.drop_last()), runs.last().artifact.bytes)
    }
}

/// The tombstone runs whose generation is in an interval (or is not).
pub open spec fn runs_within(
    runs: Seq<TombstonesView>,
    first: u64,
    last: u64,
    inside: bool,
) -> Seq<TombstonesView>
    decreases runs.len(),
{
    if runs.len() == 0 {
        Seq::empty()
    } else {
        let before = runs_within(runs.drop_last(), first, last, inside);
        if within(runs.last().generation, first, last) == inside {
            before.push(runs.last())
        } else {
            before
        }
    }
}

/// The tombstone runs after those of an interval are merged, and the state
/// after it, or why they cannot be.
pub open spec fn compacted_tombstones(
    runs: Seq<TombstonesView>,
    before: CompactState,
    pinned: Seq<ArtifactFileView>,
    first: u64,
    last: u64,
) -> Result<(Seq<TombstonesView>, CompactState), Seq<char>> {
    let selected = runs_within(runs, first, last, true);
    if selected.len() < 2 {
        Ok((runs, before))
    } else {
        match gathered_ids(selected, before.files, pinned) {
            Err(_) => Err(tombstone_runs_stop(selected, before.files, pinned)),
            Ok(ids) => {
                let merged = tombstones_view(key_order(ids), last);
                match tombstone_fault(before.files, key_order(ids), last) {
                    Some(text) => Err(text),
                    None => Ok(
                        (
                            by_grade::<V4OrdinalTombstones>(
                                runs_within(runs, first, last, false).push(merged),
                            ),
                            CompactState {
                                files: installed(
                                    before.files,
                                    ArtifactFileView {
                                        descriptor: merged.artifact,
                                        bytes: pack(key_order(ids)),
                                    },
                                ),
                                work: after_write(
                                    tombstones_read(before.work, selected),
                                    (8 * key_order(ids).len()) as u64,
                                ),
                            },
                        ),
                    ),
                }
            },
        }
    }
}

fn filter_runs(runs: &Vec<V4OrdinalTombstones>, first: u64, last: u64, inside: bool) -> (kept: Vec<
    V4OrdinalTombstones,
>)
    ensures
        views(kept@) == runs_within(views(runs@), first, last, inside),
{
    let ghost all = views(runs@);
    let mut kept: Vec<V4OrdinalTombstones> = Vec::new();
    let mut i: usize = 0;
    assert(all.take(0) =~= Seq::<TombstonesView>::empty());
    assert(views(kept@) =~= Seq::<TombstonesView>::empty());
    while i < runs.len()
        invariant
            i <= runs@.len(),
            all == views(runs@),
            views(kept@) == runs_within(all.take(i as int), first, last, inside),
        decreases runs.len() - i,
    {
        let ghost before = kept@;
        assert(all.take(i + 1).drop_last() =~= all.take(i as int));
        assert(all[i as int] == runs@[i as int]@);
        let within: bool = first <= runs[i].generation && runs[i].generation <= last;
        if within == inside {
            kept.push(runs[i].duplicate());
            assert(views(kept@) =~= views(before).push(all[i as int]));
        }
        i = i + 1;
    }
    assert(all.take(i as int) =~= all);
    kept
}

fn is_settled(ids: &Vec<NodeTombstone>) -> (yes: bool)
    ensures
        yes == settled(ids@),
{
    let mut i: usize = 0;
    while i < ids.len()
        invariant
            i <= ids@.len(),
            settled(ids@.take(i as int)),
        decreases ids.len() - i,
    {
        if ids[i].node_id == 0 || (i > 0 && ids[i].node_id < ids[i - 1].node_id) {
            proof {
                if ids@[i as int].node_id != 0 {
                    assert(ids@[i - 1].key() > ids@[i as int].key());
                }
            }
            return false;
        }
        proof {
            let head = ids@.take(i as int);
            let next = ids@.take(i + 1);
            assert forall|a: int, b: int| 0 <= a < b < next.len() implies (
            #[trigger] next[a]).key() <= (#[trigger] next[b]).key() by {
                if b < i {
                    assert(head[a].key() <= head[b].key());
                } else if a < i - 1 {
                    assert(head[a].key() <= head[i - 1].key());
                }
            }
            assert forall|a: int| 0 <= a < next.len() implies (#[trigger] next[a]).node_id != 0 by {
                if a < i {
                    assert(head[a].node_id != 0);
                }
            }
        }
        i = i + 1;
    }
    assert(ids@.take(i as int) =~= ids@);
    true
}

proof fn lemma_gather_fails(
    runs: Seq<TombstonesView>,
    files: Seq<ArtifactFileView>,
    pinned: Seq<ArtifactFileView>,
    n: int,
)
    requires
        0 <= n <= runs.len(),
        gathered_ids(runs.take(n), files, pinned) is Err,
    ensures
        gathered_ids(runs, files, pinned) == gathered_ids(runs.take(n), files, pinned),
    decreases runs.len(),
{
    if n < runs.len() {
        assert(runs.drop_last().take(n) =~= runs.take(n));
        lemma_gather_fails(runs.drop_last(), files, pinned, n);
    } else {
        assert(runs.take(n) =~= runs);
    }
}

fn gather_ids(
    runs: &Vec<V4OrdinalTombstones>,
    files: &Vec<V4ArtifactFile>,
    pinned: &Vec<V4ArtifactFile>,
    work: V4CompactionWork,
) -> (gathered: Result<(Vec<NodeTombstone>, V4CompactionWork), GfError>)
    ensures
        ({
            let outcome = gathered_ids(views(runs@), views(files@), views(pinned@));
            match gathered {
                Ok((ids, after)) => {
                    &&& outcome == Ok::<Seq<NodeTombstone>, Seq<char>>(ids@)
                    &&& after == tombstones_read(work, views(runs@))
                    &&& forall|i: int|
                        0 <= i < ids@.len() ==> (#[trigger] ids@[i]).node_id != 0
                },
                Err(error) => outcome is Err && error.is_storage(outcome->Err_0),
            }
        }),
{
    let ghost all = views(runs@);
    let ghost names = views(files@);
    let ghost retained = views(pinned@);
    let mut ids: Vec<NodeTombstone> = Vec::new();
    let mut after: V4CompactionWork = work;
    let mut i: usize = 0;
    assert(all.take(0) =~= Seq::<TombstonesView>::empty());
    while i < runs.len()
        invariant
            i <= runs@.len(),
            all == views(runs@),
            names == views(files@),
            retained == views(pinned@),
            gathered_ids(all.take(i as int), names, retained) == Ok::<
                Seq<NodeTombstone>,
                Seq<char>,
            >(ids@),
            after == tombstones_read(work, all.take(i as int)),
            forall|k: int| 0 <= k < ids@.len() ==> (#[trigger] ids@[k]).node_id != 0,
        decreases runs.len() - i,
    {
        assert(all.take(i + 1).drop_last() =~= all.take(i as int));
        assert(all[i as int] == runs@[i as int]@);
        let content: &Vec<u8> = match v4_planned_file(files, pinned, &runs[i].artifact.name) {
            Ok(content) => content,
            Err(error) => {
                proof {
                    lemma_gather_fails(all, names, retained, i + 1);
                }
                return Err(error);
            },
        };
        let more: Vec<NodeTombstone> = match decode::<NodeTombstone>(content.as_slice()) {
            Ok(more) => more,
            Err(error) => {
                proof {
                    lemma_gather_fails(all, names, retained, i + 1);
                }
                return Err(error);
            },
        };
        if !is_settled(&more) {
            proof {
                lemma_gather_fails(all, names, retained, i + 1);
            }
            return Err(storage_err("v4 tombstone stream is not strictly increasing"));
        }
        let ghost before = ids@;
        let mut k: usize = 0;
        assert(before + more@.take(0) =~= before);
        while k < more.len()
            invariant
                k <= more@.len(),
                settled(more@),
                ids@ == before + more@.take(k as int),
                forall|j: int| 0 <= j < ids@.len() ==> (#[trigger] ids@[j]).node_id != 0,
            decreases more.len() - k,
        {
            ids.push(more[k]);
            assert(more@.take(k + 1) =~= more@.take(k as int).push(more@[k as int]));
            assert(ids@ =~= before + more@.take(k + 1));
            k = k + 1;
        }
        assert(more@.take(k as int) =~= more@);
        after = after.read(runs[i].artifact.bytes);
        i = i + 1;
    }
    assert(all.take(i as int) =~= all);
    Ok((ids, after))
}

/// Some identifiers, each once, in order.
fn unite_ids(ids: &Vec<NodeTombstone>) -> (out: Vec<NodeTombstone>)
    ensures
        out@ == key_order(ids@),
{
    let sorted: Vec<NodeTombstone> = sort_by_key(ids);
    let ghost all = sorted@;
    let mut out: Vec<NodeTombstone> = Vec::new();
    let mut i: usize = 0;
    assert(all.take(0) =~= Seq::<NodeTombstone>::empty());
    assert(same_items(out@, all.take(0)));
    while i < sorted.len()
        invariant
            i <= sorted@.len(),
            all == sorted@,
            crate::keyed::sorted(all),
            ordered(out@),
            same_items(out@, all.take(i as int)),
            i > 0 ==> out@.len() > 0 && out@.last() == all[i - 1],
            i == 0 ==> out@.len() == 0,
        decreases sorted.len() - i,
    {
        let ghost before = out@;
        proof {
            lemma_push_contains(all.take(i as int), all[i as int]);
            lemma_push_contains(before, all[i as int]);
            assert(all.take(i + 1) =~= all.take(i as int).push(all[i as int]));
            if i > 0 {
                assert(all[i - 1].key() <= all[i as int].key());
                assert(before.contains(before.last())) by {
                    assert(before[before.len() - 1] == before.last());
                }
            }
        }
        if i == 0 || sorted[i].node_id != sorted[i - 1].node_id {
            out.push(sorted[i]);
            assert forall|a: int, b: int| 0 <= a < b < out@.len() implies (
            #[trigger] out@[a]).key() < (#[trigger] out@[b]).key() by {
                if b == before.len() && a < before.len() - 1 {
                    assert(before[a].key() < before[before.len() - 1].key());
                }
            }
        } else {
            assert(sorted@[i as int] == sorted@[i - 1]);
        }
        assert forall|item: NodeTombstone| out@.contains(item) == all.take(i + 1).contains(
            item,
        ) by {
            assert(before.contains(item) == all.take(i as int).contains(item));
        }
        i = i + 1;
    }
    proof {
        assert(all.take(i as int) =~= all);
        crate::keyed::lemma_multiset_contains(all, ids@);
        assert forall|item: NodeTombstone| out@.contains(item) == ids@.contains(item) by {
            assert(out@.contains(item) == all.contains(item));
        }
        assert(same_items(out@, ids@));
        lemma_is_key_order(out@, ids@);
    }
    out
}

/// Merge the tombstone runs of an interval. The merge asks for each identifier
/// whether to go on; with the runs it gives the questions from the next one on.
pub fn compact_v4_tombstone_interval(
    pinned: &Vec<V4ArtifactFile>,
    runs: Vec<V4OrdinalTombstones>,
    first: u64,
    last: u64,
    files: &mut Vec<V4ArtifactFile>,
    work: &mut V4CompactionWork,
    cancelled: Option<u64>,
) -> (compacted: Result<(Vec<V4OrdinalTombstones>, Option<u64>), GfError>)
    ensures
        ({
            let before = CompactState { files: views(old(files)@), work: *old(work) };
            let asked = tombstones_asks(
                views(runs@),
                before.files,
                views(pinned@),
                first,
                last,
            );
            let outcome = unless(
                compacted_tombstones(views(runs@), before, views(pinned@), first, last),
                cancelled,
                asked,
            );
            match compacted {
                Ok((compacted, rest)) => {
                    &&& outcome == Ok::<(Seq<TombstonesView>, CompactState), Seq<char>>(
                        (
                            views(compacted@),
                            CompactState { files: views(final(files)@), work: *final(work) },
                        ),
                    )
                    &&& rest == later_question(cancelled, asked)
                },
                Err(error) => outcome is Err && error.is_storage(outcome->Err_0),
            }
        }),
        views(old(files)@).is_prefix_of(views(final(files)@)),
{
    let selected: Vec<V4OrdinalTombstones> = filter_runs(&runs, first, last, true);
    if selected.len() < 2 {
        return Ok((runs, cancelled));
    }
    let rest: Option<u64> = match ask_tombstones(&selected, files, pinned, cancelled) {
        Some(rest) => rest,
        None => {
            return Err(storage_err("construction ordinal compaction cancelled"));
        },
    };
    let (ids, read): (Vec<NodeTombstone>, V4CompactionWork) = match gather_ids(
        &selected,
        files,
        pinned,
        *work,
    ) {
        Ok(gathered) => gathered,
        Err(_) => {
            return Err(explain_tombstone_stop(&selected, files, pinned));
        },
    };
    let union: Vec<NodeTombstone> = unite_ids(&ids);
    let (merged, bytes, _fsyncs): (V4OrdinalTombstones, u64, u64) =
        match write_v4_tombstone_artifact(files, last, &union) {
        Ok(written) => written,
        Err(error) => {
            return Err(error);
        },
    };
    *work = read.wrote(bytes);
    let mut kept: Vec<V4OrdinalTombstones> = filter_runs(&runs, first, last, false);
    let ghost before = kept@;
    let ghost view = merged@;
    kept.push(merged);
    assert(views(kept@) =~= views(before).push(view));
    Ok((sort_by_grade(kept), rest))
}

/// Manifest, new files and work of a binary-carry compaction.
#[verifier::ext_equal]
pub struct CarryState {
    pub manifest: OrdinalManifestView,
    pub files: Seq<ArtifactFileView>,
    pub work: V4CompactionWork,
}

/// Whether the last two delta runs cover equally many generations.
pub open spec fn carry_needed(intervals: Seq<(u64, u64)>) -> bool {
    let n = intervals.len();
    n >= 3 && intervals[n - 2].1 - intervals[n - 2].0 == intervals[n - 1].1 - intervals[n - 1].0
}

/// The state after the last two delta runs are merged, or why they cannot be.
pub open spec fn carry_once(
    before: CarryState,
    pinned: Seq<ArtifactFileView>,
    intervals: Seq<(u64, u64)>,
) -> Result<CarryState, Seq<char>> {
    let forward = before.manifest.forward;
    let n = forward.len();
    let first = intervals[n - 2].0;
    let last = intervals[n - 1].1;
    match (
        planned(before.files, pinned, forward[n - 2].name),
        planned(before.files, pinned, forward[n - 1].name),
    ) {
        (Some(left), Some(right)) => match merged_forward(
            CompactState { files: before.files, work: before.work },
            left,
            right,
            last,
        ) {
            Err(text) => Err(text),
            Ok((artifact, merged)) => match compacted_ranges(
                before.manifest.ranges,
                0,
                Seq::empty(),
                merged,
                pinned,
                first,
                last,
            ) {
                Err(text) => Err(text),
                Ok((ranges, ranged)) => match compacted_tombstones(
                    before.manifest.tombstones,
                    ranged,
                    pinned,
                    first,
                    last,
                ) {
                    Err(text) => Err(text),
                    Ok((tombstones, buried)) => Ok(
                        CarryState {
                            manifest: OrdinalManifestView {
                                forward: forward.take(n - 2).push(artifact),
                                ranges,
                                tombstones,
                                ..before.manifest
                            },
                            files: buried.files,
                            work: V4CompactionWork {
                                compactions: sat_add(buried.work.compactions, 1),
                                ..buried.work
                            },
                        },
                    ),
                },
            },
        },
        _ => Err("authenticated v4 update input is absent"@),
    }
}

/// The state after merging as long as the last two delta runs cover equally
/// many generations, or why that fails.
pub open spec fn carried(before: CarryState, pinned: Seq<ArtifactFileView>) -> Result<
    CarryState,
    Seq<char>,
>
    decreases before.manifest.forward.len(),
{
    match forward_intervals(before.manifest.forward) {
        Err(text) => Err(text),
        Ok(intervals) => if !carry_needed(intervals) || before.manifest.forward.len() < 3 {
            Ok(before)
        } else {
            match carry_once(before, pinned, intervals) {
                Err(text) => Err(text),
                Ok(next) => carried(next, pinned),
            }
        },
    }
}

/// The first generation that a binary carry consumes, if it consumes any.
pub open spec fn first_consumed(intervals: Seq<(u64, u64)>, found: Option<u64>) -> Option<u64>
    decreases intervals.len(),
{
    if carry_needed(intervals) {
        let n = intervals.len();
        let left = intervals[n - 2];
        let right = intervals[n - 1];
        first_consumed(intervals.take(n - 2).push((left.0, right.1)), Some(left.0))
    } else {
        found
    }
}

/// Whether no range that a binary carry merges is empty.
pub open spec fn carry_filled(manifest: OrdinalManifestView) -> bool {
    match forward_intervals(manifest.forward) {
        Err(_) => true,
        Ok(intervals) => match first_consumed(intervals, None) {
            None => true,
            Some(first) => filled(manifest.ranges, first, intervals.last().1),
        },
    }
}

/// A binary carry, unless one of its questions whether to go on is answered
/// with no.
pub open spec fn carried_unless(
    before: CarryState,
    pinned: Seq<ArtifactFileView>,
    cancelled: Option<u64>,
) -> Result<CarryState, Seq<char>> {
    unless(carried(before, pinned), cancelled, carry_asks(before, pinned))
}

spec fn chained(intervals: Seq<(u64, u64)>) -> bool {
    forall|i: int|
        1 <= i < intervals.len() ==> (#[trigger] intervals[i]).0 == intervals[i - 1].1 + 1
            && intervals[i].0 <= intervals[i].1
}

proof fn lemma_consumed_below(intervals: Seq<(u64, u64)>)
    requires
        intervals.len() > 0,
        chained(intervals),
    ensures
        first_consumed(intervals, Some(intervals.last().0)) is Some,
        first_consumed(intervals, Some(intervals.last().0))->0 <= intervals.last().0,
    decreases intervals.len(),
{
    if carry_needed(intervals) {
        let n = intervals.len() as int;
        let left = intervals[n - 2];
        let right = intervals[n - 1];
        let next = intervals.take(n - 2).push((left.0, right.1));
        assert(right.0 == left.1 + 1 && left.0 <= left.1 && right.0 <= right.1);
        assert(chained(next)) by {
            assert forall|i: int| 1 <= i < next.len() implies (#[trigger] next[i]).0 == next[i
                - 1].1 + 1 && next[i].0 <= next[i].1 by {
                assert(intervals[i].0 == intervals[i - 1].1 + 1 && intervals[i].0
                    <= intervals[i].1);
                assert(next[i - 1] == intervals[i - 1]);
            }
        }
        lemma_consumed_below(next);
    }
}

/// The ranges of the two last delta runs, when these are merged, are among
/// those that the carry merges.
proof fn lemma_carry_filled(manifest: OrdinalManifestView)
    requires
        carry_filled(manifest),
        forward_intervals(manifest.forward) is Ok,
        carry_needed(forward_intervals(manifest.forward)->Ok_0),
    ensures
        ({
            let intervals = forward_intervals(manifest.forward)->Ok_0;
            let n = intervals.len() as int;
            filled(manifest.ranges, intervals[n - 2].0, intervals[n - 1].1)
        }),
{
    let intervals = forward_intervals(manifest.forward)->Ok_0;
    let n = intervals.len() as int;
    lemma_intervals_contiguous(manifest.forward);
    let left = intervals[n - 2];
    let right = intervals[n - 1];
    let next = intervals.take(n - 2).push((left.0, right.1));
    assert(right.0 == left.1 + 1 && left.0 <= left.1 && right.0 <= right.1);
    assert(chained(next)) by {
        assert forall|i: int| 1 <= i < next.len() implies (#[trigger] next[i]).0 == next[i - 1].1
            + 1 && next[i].0 <= next[i].1 by {
            assert(intervals[i].0 == intervals[i - 1].1 + 1 && intervals[i].0 <= intervals[i].1);
            assert(next[i - 1] == intervals[i - 1]);
        }
    }
    lemma_consumed_below(next);
}

proof fn lemma_take_intervals(forwards: Seq<ArtifactView>, n: int)
    requires
        forward_intervals(forwards) is Ok,
        1 <= n <= forwards.len(),
    ensures
        forward_intervals(forwards.take(n)) == Ok::<Seq<(u64, u64)>, Seq<char>>(
            forward_intervals(forwards)->Ok_0.take(n),
        ),
    decreases forwards.len(),
{
    lemma_intervals_contiguous(forwards);
    let intervals = forward_intervals(forwards)->Ok_0;
    if n == forwards.len() {
        assert(forwards.take(n) =~= forwards);
        assert(intervals.take(n) =~= intervals);
    } else {
        lemma_take_intervals(forwards.drop_last(), n);
        assert(forwards.drop_last().take(n) =~= forwards.take(n));
        lemma_intervals_contiguous(forwards.drop_last());
        assert(forward_intervals(forwards.drop_last())->Ok_0.take(n) =~= intervals.take(n));
    }
}

/// A merge leaves the ranges of the merges to come without empty ones.
proof fn lemma_carry_filled_next(before: OrdinalManifestView, next: OrdinalManifestView)
    requires
        carry_filled(before),
        forward_intervals(before.forward) is Ok,
        carry_needed(forward_intervals(before.forward)->Ok_0),
        next.forward.len() == before.forward.len() - 1,
        next.forward.drop_last() == before.forward.take(before.forward.len() - 2),
        next.forward.last().generation == before.forward.last().generation,
        no_new_empties(next.ranges, before.ranges),
    ensures
        carry_filled(next),
{
    let intervals = forward_intervals(before.forward)->Ok_0;
    lemma_intervals_contiguous(before.forward);
    let n = intervals.len() as int;
    let left = intervals[n - 2];
    let right = intervals[n - 1];
    assert(right.0 == left.1 + 1 && left.0 <= left.1 && right.0 <= right.1);
    let merged = intervals.take(n - 2).push((left.0, right.1));
    lemma_take_intervals(before.forward, n - 2);
    assert(left.0 == intervals[n - 3].1 + 1);
    assert(next.forward[n - 3] == next.forward.drop_last()[n - 3]);
    assert(forward_intervals(next.forward) == Ok::<Seq<(u64, u64)>, Seq<char>>(merged));
    if first_consumed(merged, None) is Some {
        let first = first_consumed(merged, None)->0;
        assert(carry_needed(merged));
        assert(first_consumed(intervals, None) == first_consumed(merged, Some(left.0)));
        assert(first_consumed(intervals, None) == Some(first));
        assert(filled(next.ranges, first, right.1)) by {
            assert forall|i: int|
                0 <= i < next.ranges.len() && within(
                    (#[trigger] next.ranges[i]).artifact.generation,
                    first,
                    right.1,
                ) implies next.ranges[i].count > 0 by {
                if next.ranges[i].count == 0 {
                    assert(before.ranges.contains(next.ranges[i]));
                    let k = choose|k: int|
                        0 <= k < before.ranges.len() && before.ranges[k] == next.ranges[i];
                    assert(before.ranges[k].count > 0);
                }
            }
        }
    }
}

/// A prefix of a prefix is a prefix.
pub(crate) proof fn lemma_prefix<T>(first: Seq<T>, second: Seq<T>, third: Seq<T>)
    requires
        first.is_prefix_of(second),
        second.is_prefix_of(third),
    ensures
        first.is_prefix_of(third),
{
    assert forall|i: int| 0 <= i < first.len() implies first[i] == third[i] by {
        assert(first[i] == second[i]);
        assert(second[i] == third[i]);
    }
    assert(first =~= third.subrange(0, first.len() as int));
}

/// Merge the last two delta runs.
fn carry_step(
    pinned: &Vec<V4ArtifactFile>,
    manifest: V4OrdinalIdentityManifest,
    intervals: &Vec<(u64, u64, usize)>,
    files: &mut Vec<V4ArtifactFile>,
    work: &mut V4CompactionWork,
    cancelled: Option<u64>,
    Ghost(spans): Ghost<Seq<(u64, u64)>>,
) -> (next: Result<(V4OrdinalIdentityManifest, Option<u64>), GfError>)
    requires
        manifest.forward_identities@.len() >= 3,
        intervals@.len() == manifest.forward_identities@.len(),
        spans.len() == intervals@.len(),
        filled(manifest@.ranges, spans[spans.len() - 2].0, spans[spans.len() - 1].1),
        forall|i: int|
            0 <= i < intervals@.len() ==> #[trigger] intervals@[i] == (
                spans[i].0,
                spans[i].1,
                i as usize,
            ),
    ensures
        ({
            let before = CarryState {
                manifest: manifest@,
                files: views(old(files)@),
                work: *old(work),
            };
            let asked = step_asks(before, views(pinned@), spans);
            let outcome = unless(carry_once(before, views(pinned@), spans), cancelled, asked);
            match next {
                Ok((next, rest)) => {
                    &&& outcome == Ok::<CarryState, Seq<char>>(
                        CarryState {
                            manifest: next@,
                            files: views(final(files)@),
                            work: *final(work),
                        },
                    )
                    &&& no_new_empties(next@.ranges, manifest@.ranges)
                    &&& rest == later_question(cancelled, asked)
                },
                Err(error) => outcome is Err && error.is_storage(outcome->Err_0),
            }
        }),
        views(old(files)@).is_prefix_of(views(final(files)@)),
{
    let n: usize = manifest.forward_identities.len();
    let first: u64 = intervals[n - 2].0;
    let last: u64 = intervals[n - 1].1;
    assert(intervals@[n - 2].0 == spans[n - 2].0);
    assert(intervals@[n - 1].1 == spans[n - 1].1);
    let ghost forward = manifest@.forward;
    assert(forward[n - 2] == manifest.forward_identities@[n - 2]@);
    assert(forward[n - 1] == manifest.forward_identities@[n - 1]@);
    let left: Vec<u8> = match v4_planned_file(
        files,
        pinned,
        &manifest.forward_identities[n - 2].name,
    ) {
        Ok(content) => vstd::slice::slice_to_vec(content.as_slice()),
        Err(error) => {
            return Err(error);
        },
    };
    let right: Vec<u8> = match v4_planned_file(
        files,
        pinned,
        &manifest.forward_identities[n - 1].name,
    ) {
        Ok(content) => vstd::slice::slice_to_vec(content.as_slice()),
        Err(error) => {
            return Err(error);
        },
    };
    let (artifact, rest): (V4OrdinalArtifact, Option<u64>) = match merge_v4_forward_artifacts(
        &left,
        &right,
        last,
        files,
        work,
        cancelled,
    ) {
        Ok(artifact) => artifact,
        Err(error) => {
            return Err(error);
        },
    };
    let ghost merged_files = views(files@);
    assert(views(old(files)@).is_prefix_of(merged_files));
    let compacted: Result<(Vec<V4OrdinalRange>, Option<u64>), GfError> =
        compact_v4_ordinal_interval(
        pinned,
        &manifest.ordinal_ranges,
        first,
        last,
        files,
        work,
        rest,
    );
    let ghost ranged_files = views(files@);
    proof {
        lemma_prefix(views(old(files)@), merged_files, ranged_files);
    }
    let (ranges, rest): (Vec<V4OrdinalRange>, Option<u64>) = match compacted {
        Ok(ranges) => ranges,
        Err(error) => {
            return Err(error);
        },
    };
    let compacted: Result<(Vec<V4OrdinalTombstones>, Option<u64>), GfError> =
        compact_v4_tombstone_interval(
        pinned,
        manifest.tombstones,
        first,
        last,
        files,
        work,
        rest,
    );
    proof {
        lemma_prefix(views(old(files)@), ranged_files, views(files@));
    }
    let (tombstones, rest): (Vec<V4OrdinalTombstones>, Option<u64>) = match compacted {
        Ok(tombstones) => tombstones,
        Err(error) => {
            return Err(error);
        },
    };
    work.compactions = saturating_sum(work.compactions, 1);
    let mut forwards: Vec<V4OrdinalArtifact> = manifest.forward_identities;
    let ghost view = artifact@;
    forwards.truncate(n - 2);
    forwards.push(artifact);
    assert(views(forwards@) =~= forward.take(n - 2).push(view));
    Ok(
        (
            V4OrdinalIdentityManifest {
                format_version: manifest.format_version,
                topology_generation: manifest.topology_generation,
                forward_identities: forwards,
                ordinal_ranges: ranges,
                tombstones,
            },
            rest,
        ),
    )
}

fn forget_files(
    files: &mut Vec<V4ArtifactFile>,
    kept: usize,
    Ghost(start): Ghost<Seq<ArtifactFileView>>,
)
    requires
        start.len() == kept,
        start.is_prefix_of(views(old(files)@)),
    ensures
        views(final(files)@) == start,
{
    let ghost grown = views(files@);
    files.truncate(kept);
    assert(views(files@) =~= start) by {
        assert forall|i: int| 0 <= i < start.len() implies views(files@)[i] == start[i] by {
            assert(grown[i] == start[i]);
        }
    }
}

/// Compact a manifest by binary carry, unless that is cancelled. A failure
/// leaves the manifest and the new files as they were.
#[verifier::rlimit(60)]
pub fn compact_v4_binary_carry_with_cancellation(
    pinned: &Vec<V4ArtifactFile>,
    manifest: &mut V4OrdinalIdentityManifest,
    files: &mut Vec<V4ArtifactFile>,
    cancelled: Option<u64>,
) -> (work: Result<V4CompactionWork, GfError>)
    requires
        carry_filled(old(manifest)@),
    ensures
        ({
            let before = CarryState {
                manifest: old(manifest)@,
                files: views(old(files)@),
                work: no_compaction_work(),
            };
            let outcome = carried_unless(before, views(pinned@), cancelled);
            match work {
                Ok(work) => outcome == Ok::<CarryState, Seq<char>>(
                    CarryState { manifest: final(manifest)@, files: views(final(files)@), work },
                ),
                Err(error) => {
                    &&& outcome is Err
                    &&& error.is_storage(outcome->Err_0)
                    &&& final(manifest)@ == old(manifest)@
                    &&& views(final(files)@) == views(old(files)@)
                },
            }
        }),
{
    let ghost start_files = views(files@);
    let ghost retained = views(pinned@);
    let ghost start = CarryState {
        manifest: manifest@,
        files: views(files@),
        work: no_compaction_work(),
    };
    let ghost mut asked: nat = 0;
    let mut rest: Option<u64> = cancelled;
    let held_files: usize = files.len();
    let mut current: V4OrdinalIdentityManifest = manifest.duplicate();
    let mut work: V4CompactionWork = V4CompactionWork::none();
    loop
        invariant
            carry_filled(current@),
            start.manifest == old(manifest)@,
            start.files == views(old(files)@),
            start.work == no_compaction_work(),
            goes_on(cancelled, asked),
            rest == later_question(cancelled, asked),
            carry_asks(start, retained) == asked + carry_asks(
                CarryState { manifest: current@, files: views(files@), work },
                retained,
            ),
            start_files == views(old(files)@),
            held_files == start_files.len(),
            retained == views(pinned@),
            manifest@ == old(manifest)@,
            start_files.is_prefix_of(views(files@)),
            carried(start, retained) == carried(
                CarryState { manifest: current@, files: views(files@), work },
                retained,
            ),
        decreases current.forward_identities.len(),
    {
        let ghost before = CarryState { manifest: current@, files: views(files@), work };
        proof {
            lemma_carry_asks(before, retained);
        }
        rest =
        match ask(rest) {
            Some(rest) => rest,
            None => {
                forget_files(files, held_files, Ghost(start_files));
                return Err(storage_err("construction ordinal compaction cancelled"));
            },
        };
        proof {
            asked = asked + 1;
        }
        let intervals: Vec<(u64, u64, usize)> = match v4_forward_intervals(
            &current.forward_identities,
        ) {
            Ok(intervals) => intervals,
            Err(error) => {
                forget_files(files, held_files, Ghost(start_files));
                return Err(error);
            },
        };
        let ghost spans = forward_intervals(current@.forward)->Ok_0;
        proof {
            lemma_intervals_contiguous(current@.forward);
        }
        let n: usize = intervals.len();
        if n < 3 {
            *manifest = current;
            return Ok(work);
        }
        assert(intervals@[n - 2] == (spans[n - 2].0, spans[n - 2].1, (n - 2) as usize));
        assert(intervals@[n - 1] == (spans[n - 1].0, spans[n - 1].1, (n - 1) as usize));
        assert(spans[n - 2].0 <= spans[n - 2].1);
        assert(spans[n - 1].0 <= spans[n - 1].1);
        if intervals[n - 2].1 - intervals[n - 2].0 != intervals[n - 1].1 - intervals[n - 1].0 {
            *manifest = current;
            return Ok(work);
        }
        proof {
            lemma_carry_filled(current@);
        }
        let ghost held_manifest = current@;
        let ghost grown_before = views(files@);
        let ghost size = current@.forward.len();
        let (next, after): (V4OrdinalIdentityManifest, Option<u64>) = match carry_step(
            pinned,
            current,
            &intervals,
            files,
            &mut work,
            rest,
            Ghost(spans),
        ) {
            Ok(next) => next,
            Err(error) => {
                proof {
                    lemma_prefix(start_files, grown_before, views(files@));
                }
                forget_files(files, held_files, Ghost(start_files));
                return Err(error);
            },
        };
        current = next;
        rest = after;
        assert(current@.forward.len() == size - 1);
        proof {
            assert(current@.forward.drop_last() =~= held_manifest.forward.take(size - 2));
            lemma_carry_filled_next(held_manifest, current@);
        }
        proof {
            asked = asked + step_asks(before, retained, spans);
            lemma_prefix(start_files, grown_before, views(files@));
        }
    }
}

/// Compact a manifest by binary carry. A failure leaves the manifest and the
/// new files as they were.
pub fn compact_v4_binary_carry(
    pinned: &Vec<V4ArtifactFile>,
    manifest: &mut V4OrdinalIdentityManifest,
    files: &mut Vec<V4ArtifactFile>,
) -> (work: Result<V4CompactionWork, GfError>)
    requires
        carry_filled(old(manifest)@),
    ensures
        ({
            let before = CarryState {
                manifest: old(manifest)@,
                files: views(old(files)@),
                work: no_compaction_work(),
            };
            let outcome = carried(before, views(pinned@));
            match work {
                Ok(work) => outcome == Ok::<CarryState, Seq<char>>(
                    CarryState { manifest: final(manifest)@, files: views(final(files)@), work },
                ),
                Err(error) => {
                    &&& outcome is Err
                    &&& error.is_storage(outcome->Err_0)
                    &&& final(manifest)@ == old(manifest)@
                    &&& views(final(files)@) == views(old(files)@)
                },
            }
        }),
{
    compact_v4_binary_carry_with_cancellation(pinned, manifest, files, None)
}

/// A finished compaction keeps the base run and the covered generations, and
/// leaves no two last delta runs that cover equally many generations.
pub proof fn lemma_carried_coverage(before: CarryState, pinned: Seq<ArtifactFileView>)
    requires
        carried(before, pinned) is Ok,
    ensures
        ({
            let after = carried(before, pinned)->Ok_0.manifest;
            &&& forward_intervals(after.forward) is Ok
            &&& !carry_needed(forward_intervals(after.forward)->Ok_0)
            &&& after.forward[0] == before.manifest.forward[0]
            &&& after.forward.last().generation == before.manifest.forward.last().generation
            &&& after.forward.len() <= before.manifest.forward.len()
            &&& after.topology_generation == before.manifest.topology_generation
            &&& after.format_version == before.manifest.format_version
        }),
    decreases before.manifest.forward.len(),
{
    let forward = before.manifest.forward;
    let intervals = forward_intervals(forward)->Ok_0;
    lemma_intervals_contiguous(forward);
    if carry_needed(intervals) && forward.len() >= 3 {
        let next = carry_once(before, pinned, intervals)->Ok_0;
        lemma_carried_coverage(next, pinned);
        assert(next.manifest.forward[0] == forward[0]);
        assert(next.manifest.forward.last().generation == intervals[forward.len() - 1].1);
    }
}

/// Merged tombstones hold the identifiers of all the runs that are merged, each
/// once and in order, and no others.
pub proof fn lemma_tombstones_kept(
    runs: Seq<TombstonesView>,
    files: Seq<ArtifactFileView>,
    pinned: Seq<ArtifactFileView>,
)
    requires
        gathered_ids(runs, files, pinned) is Ok,
    ensures
        ({
            let ids = gathered_ids(runs, files, pinned)->Ok_0;
            ordered(key_order(ids)) && same_items(key_order(ids), ids)
        }),
{
    let ids = gathered_ids(runs, files, pinned)->Ok_0;
    assert(key_determines(ids));
    lemma_key_order(ids);
}

} // verus!
