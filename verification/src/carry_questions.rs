//! The questions whether to go on that a binary carry asks: one for each record
//! that its merges take, and one before each merge and before the end.
use vstd::prelude::*;

use crate::cancellation::{ask, ask_times, goes_on, later_question};
use crate::framing::{decode_front, scan};
use crate::merge_stops::{
    all_planned, find_cut, find_least, head, least, lemma_least, lemma_remaining, meets_cut, places,
    read_sources, remaining, source_views, tombstone_sources, TombstoneSource,
};
use crate::ordinal_compaction::{
    CarryState, carry_needed, carry_once, CompactState, compacted_ranges, forward_intervals,
    group_end, merged_forward, merged_group, planned, range_last, runs_within, v4_planned_file,
    within,
};
use crate::ordinal_format::{
    ArtifactFileView, RangeView, TombstonesView, V4ArtifactFile, V4OrdinalRange,
    V4OrdinalTombstones, views,
};
use crate::records::ForwardRecord;

verus! {

/// Questions that the merge of two forward runs asks: one for each record that
/// it takes, one where it stops, and one at the end. `left` and `right` are the
/// records still to come, after one with key `previous`.
pub open spec fn forward_asks(
    left: Seq<ForwardRecord>,
    left_cut: bool,
    right: Seq<ForwardRecord>,
    right_cut: bool,
    previous: Option<u128>,
) -> nat
    decreases left.len() + right.len(),
{
    if (left.len() == 0 && left_cut) || (right.len() == 0 && right_cut) {
        0
    } else if left.len() == 0 && right.len() == 0 {
        1
    } else if left.len() > 0 && right.len() > 0 && left[0].uuid == right[0].uuid {
        if left[0].node_id != right[0].node_id {
            1
        } else {
            1 + forward_asks(
                left.skip(1),
                left_cut,
                right.skip(1),
                right_cut,
                Some(right[0].uuid),
            )
        }
    } else {
        let from_left = left.len() > 0 && (right.len() == 0 || left[0].uuid < right[0].uuid);
        let next = if from_left {
            left[0]
        } else {
            right[0]
        };
        if previous is Some && previous->0 >= next.uuid {
            1
        } else if from_left {
            1 + forward_asks(left.skip(1), left_cut, right, right_cut, Some(next.uuid))
        } else {
            1 + forward_asks(left, left_cut, right.skip(1), right_cut, Some(next.uuid))
        }
    }
}

/// Questions that the merge of two forward files asks.
pub open spec fn forward_files_asks(left: Seq<u8>, right: Seq<u8>) -> nat {
    let one = scan::<ForwardRecord>(left);
    let two = scan::<ForwardRecord>(right);
    forward_asks(one.0, one.1 is Some, two.0, two.1 is Some, None)
}

/// Ask the questions of the merge of two forward files.
pub fn ask_forward(left: &Vec<u8>, right: &Vec<u8>, cancelled: Option<u64>) -> (rest: Option<
    Option<u64>,
>)
    ensures
        ({
            let asked = forward_files_asks(left@, right@);
            match rest {
                Some(rest) => goes_on(cancelled, asked) && rest == later_question(
                    cancelled,
                    asked,
                ),
                None => !goes_on(cancelled, asked),
            }
        }),
{
    if cancelled.is_none() {
        return Some(None);
    }
    let (one, one_cut): (Vec<ForwardRecord>, bool) = decode_front(left.as_slice());
    let (two, two_cut): (Vec<ForwardRecord>, bool) = decode_front(right.as_slice());
    let ghost all = forward_files_asks(left@, right@);
    let ghost mut asked: nat = 0;
    let mut rest: Option<u64> = cancelled;
    let mut previous: Option<u128> = None;
    let mut i: usize = 0;
    let mut j: usize = 0;
    assert(one@.skip(0) =~= one@);
    assert(two@.skip(0) =~= two@);
    while !((i == one.len() && one_cut) || (j == two.len() && two_cut))
        invariant
            i <= one@.len(),
            j <= two@.len(),
            all == forward_files_asks(left@, right@),
            all == asked + forward_asks(
                one@.skip(i as int),
                one_cut,
                two@.skip(j as int),
                two_cut,
                previous,
            ),
            goes_on(cancelled, asked),
            rest == later_question(cancelled, asked),
        decreases one.len() - i + two.len() - j,
    {
        proof {
            if i < one@.len() {
                assert(one@.skip(i as int).skip(1) =~= one@.skip(i + 1));
            }
            if j < two@.len() {
                assert(two@.skip(j as int).skip(1) =~= two@.skip(j + 1));
            }
        }
        rest =
        match ask(rest) {
            Some(rest) => rest,
            None => {
                return None;
            },
        };
        proof {
            asked = asked + 1;
        }
        if i == one.len() && j == two.len() {
            return Some(rest);
        }
        if i < one.len() && j < two.len() && one[i].uuid == two[j].uuid {
            if one[i].node_id != two[j].node_id {
                return Some(rest);
            }
            previous = Some(two[j].uuid);
            i = i + 1;
            j = j + 1;
        } else {
            let from_left: bool = i < one.len() && (j >= two.len() || one[i].uuid < two[j].uuid);
            let next: u128 = if from_left {
                one[i].uuid
            } else {
                two[j].uuid
            };
            let late: bool = match previous {
                Some(previous) => previous >= next,
                None => false,
            };
            if late {
                return Some(rest);
            }
            previous = Some(next);
            if from_left {
                i = i + 1;
            } else {
                j = j + 1;
            }
        }
    }
    Some(rest)
}

/// Questions that copying neighbouring ranges from number `i` on asks: one for
/// each identity, as far as the copy comes.
pub open spec fn group_asks(
    ranges: Seq<RangeView>,
    i: int,
    files: Seq<ArtifactFileView>,
    pinned: Seq<ArtifactFileView>,
) -> nat
    decreases ranges.len() - i,
{
    if i < 0 || i >= ranges.len() {
        0
    } else {
        match planned(files, pinned, ranges[i].artifact.name) {
            None => 0,
            Some(content) => content.len() / 16 + if content.len() % 16 != 0 {
                0
            } else {
                group_asks(ranges, i + 1, files, pinned)
            },
        }
    }
}

/// Ask the questions of copying neighbouring ranges.
pub fn ask_group(
    ranges: &Vec<V4OrdinalRange>,
    start: usize,
    end: usize,
    files: &Vec<V4ArtifactFile>,
    pinned: &Vec<V4ArtifactFile>,
    cancelled: Option<u64>,
) -> (rest: Option<Option<u64>>)
    requires
        start <= end <= ranges@.len(),
    ensures
        ({
            let asked = group_asks(
                views(ranges@).subrange(start as int, end as int),
                0,
                views(files@),
                views(pinned@),
            );
            match rest {
                Some(rest) => goes_on(cancelled, asked) && rest == later_question(
                    cancelled,
                    asked,
                ),
                None => !goes_on(cancelled, asked),
            }
        }),
{
    let ghost group = views(ranges@).subrange(start as int, end as int);
    let ghost all = group_asks(group, 0, views(files@), views(pinned@));
    let ghost mut asked: nat = 0;
    let mut rest: Option<u64> = cancelled;
    let mut at: usize = start;
    while at < end
        invariant
            start <= at <= end <= ranges@.len(),
            group == views(ranges@).subrange(start as int, end as int),
            all == group_asks(group, 0, views(files@), views(pinned@)),
            all == asked + group_asks(group, at - start, views(files@), views(pinned@)),
            goes_on(cancelled, asked),
            rest == later_question(cancelled, asked),
        decreases end - at,
    {
        assert(group[at - start] == ranges@[at as int]@);
        let content: &Vec<u8> = match v4_planned_file(files, pinned, &ranges[at].artifact.name) {
            Ok(content) => content,
            Err(_) => {
                return Some(rest);
            },
        };
        rest =
        match ask_times(rest, (content.len() / 16) as u64) {
            Some(rest) => rest,
            None => {
                return None;
            },
        };
        proof {
            asked = asked + content@.len() / 16;
        }
        if content.len() % 16 != 0 {
            return Some(rest);
        }
        at = at + 1;
    }
    Some(rest)
}

/// Questions that merging the ranges of an interval from `cursor` on asks.
pub open spec fn ranges_asks(
    ranges: Seq<RangeView>,
    cursor: int,
    before: CompactState,
    pinned: Seq<ArtifactFileView>,
    first: u64,
    last: u64,
) -> nat
    decreases ranges.len() - cursor,
{
    if cursor < 0 || cursor >= ranges.len() {
        0
    } else {
        let end = group_end(ranges, cursor + 1, first, last);
        if !within(ranges[cursor].artifact.generation, first, last) {
            ranges_asks(ranges, cursor + 1, before, pinned, first, last)
        } else if end <= cursor || end > ranges.len() || range_last(ranges[end - 1]) > u64::MAX {
            0
        } else if end == cursor + 1 {
            ranges_asks(ranges, end, before, pinned, first, last)
        } else {
            let group = ranges.subrange(cursor, end);
            group_asks(group, 0, before.files, pinned) + match merged_group(
                group,
                before,
                pinned,
                last,
            ) {
                Err(_) => 0,
                Ok((_, next)) => ranges_asks(ranges, end, next, pinned, first, last),
            }
        }
    }
}

/// Questions that the merge of streams of identifiers asks from the places `at`
/// on, after `previous`: one for each identifier that it takes.
pub open spec fn tombstone_asks(
    sources: Seq<TombstoneSource>,
    at: Seq<nat>,
    previous: Option<u64>,
) -> nat
    decreases remaining(sources, at, sources.len() as int),
{
    let count = sources.len() as int;
    let chosen = least(sources, at, count);
    if meets_cut(sources, at, count) || chosen is None || at.len() != count {
        0
    } else {
        proof {
            lemma_least(sources, at, count);
            lemma_remaining(sources, at, chosen->0, count);
        }
        let id = head(sources, at, chosen->0)->0;
        let next = at.update(chosen->0, at[chosen->0] + 1);
        if previous == Some(id) {
            1 + tombstone_asks(sources, next, previous)
        } else if id == 0 || (previous is Some && previous->0 >= id) {
            1
        } else {
            1 + tombstone_asks(sources, next, Some(id))
        }
    }
}

/// Questions that the merge of tombstone runs asks.
pub open spec fn tombstone_runs_asks(
    runs: Seq<TombstonesView>,
    files: Seq<ArtifactFileView>,
    pinned: Seq<ArtifactFileView>,
) -> nat {
    if all_planned(runs, files, pinned) {
        let sources = tombstone_sources(runs, files, pinned);
        tombstone_asks(sources, Seq::new(sources.len(), |i: int| 0nat), None)
    } else {
        0
    }
}

/// Questions that merging the tombstone runs of an interval asks.
pub open spec fn tombstones_asks(
    runs: Seq<TombstonesView>,
    files: Seq<ArtifactFileView>,
    pinned: Seq<ArtifactFileView>,
    first: u64,
    last: u64,
) -> nat {
    let selected = runs_within(runs, first, last, true);
    if selected.len() < 2 {
        0
    } else {
        tombstone_runs_asks(selected, files, pinned)
    }
}

/// Ask the questions of the merge of tombstone runs.
pub fn ask_tombstones(
    runs: &Vec<V4OrdinalTombstones>,
    files: &Vec<V4ArtifactFile>,
    pinned: &Vec<V4ArtifactFile>,
    cancelled: Option<u64>,
) -> (rest: Option<Option<u64>>)
    ensures
        ({
            let asked = tombstone_runs_asks(views(runs@), views(files@), views(pinned@));
            match rest {
                Some(rest) => goes_on(cancelled, asked) && rest == later_question(
                    cancelled,
                    asked,
                ),
                None => !goes_on(cancelled, asked),
            }
        }),
{
    if cancelled.is_none() {
        return Some(None);
    }
    let ghost all = tombstone_runs_asks(views(runs@), views(files@), views(pinned@));
    let (ids, cuts) = match read_sources(runs, files, pinned) {
        Some(sources) => sources,
        None => {
            return Some(cancelled);
        },
    };
    let ghost sources = source_views(ids@, cuts@);
    let ghost mut asked: nat = 0;
    let mut at: Vec<usize> = Vec::new();
    while at.len() < ids.len()
        invariant
            at@.len() <= ids@.len(),
            forall|k: int| 0 <= k < at@.len() ==> #[trigger] at@[k] == 0,
        decreases ids.len() - at.len(),
    {
        at.push(0);
    }
    assert(places(at@) =~= Seq::new(sources.len(), |i: int| 0nat));
    let mut rest: Option<u64> = cancelled;
    let mut previous: Option<u64> = None;
    loop
        invariant
            ids@.len() == cuts@.len() == at@.len(),
            sources == source_views(ids@, cuts@),
            all == tombstone_runs_asks(views(runs@), views(files@), views(pinned@)),
            all == asked + tombstone_asks(sources, places(at@), previous),
            goes_on(cancelled, asked),
            rest == later_question(cancelled, asked),
        decreases remaining(sources, places(at@), sources.len() as int),
    {
        if find_cut(&ids, &cuts, &at) {
            return Some(rest);
        }
        let chosen: usize = match find_least(&ids, Ghost(cuts@), &at) {
            Some(chosen) => chosen,
            None => {
                return Some(rest);
            },
        };
        rest =
        match ask(rest) {
            Some(rest) => rest,
            None => {
                return None;
            },
        };
        let id: u64 = ids[chosen][at[chosen]].node_id;
        let ghost before = places(at@);
        proof {
            asked = asked + 1;
            lemma_remaining(sources, before, chosen as int, sources.len() as int);
        }
        let (again, late): (bool, bool) = match previous {
            Some(previous) => (previous == id, previous >= id),
            None => (false, false),
        };
        assert(ids@[chosen as int].len() <= usize::MAX);
        let place: usize = at[chosen] + 1;
        at.set(chosen, place);
        assert(places(at@) =~= before.update(chosen as int, before[chosen as int] + 1));
        if !again {
            if id == 0 || late {
                return Some(rest);
            }
            previous = Some(id);
        }
    }
}

/// Questions that merging the last two delta runs asks, as far as the merge
/// comes.
pub open spec fn step_asks(
    before: CarryState,
    pinned: Seq<ArtifactFileView>,
    intervals: Seq<(u64, u64)>,
) -> nat {
    let forward = before.manifest.forward;
    let n = forward.len();
    let first = intervals[n - 2].0;
    let last = intervals[n - 1].1;
    match (
        planned(before.files, pinned, forward[n - 2].name),
        planned(before.files, pinned, forward[n - 1].name),
    ) {
        (Some(left), Some(right)) => forward_files_asks(left, right) + match merged_forward(
            CompactState { files: before.files, work: before.work },
            left,
            right,
            last,
        ) {
            Err(_) => 0,
            Ok((_, merged)) => ranges_asks(
                before.manifest.ranges,
                0,
                merged,
                pinned,
                first,
                last,
            ) + match compacted_ranges(
                before.manifest.ranges,
                0,
                Seq::empty(),
                merged,
                pinned,
                first,
                last,
            ) {
                Err(_) => 0,
                Ok((_, ranged)) => tombstones_asks(
                    before.manifest.tombstones,
                    ranged.files,
                    pinned,
                    first,
                    last,
                ),
            },
        },
        _ => 0,
    }
}

/// Questions that a binary carry asks before it ends or fails.
#[verifier::opaque]
pub open spec fn carry_asks(before: CarryState, pinned: Seq<ArtifactFileView>) -> nat
    decreases before.manifest.forward.len(),
{
    match forward_intervals(before.manifest.forward) {
        Err(_) => 1,
        Ok(intervals) => if !carry_needed(intervals) || before.manifest.forward.len() < 3 {
            1
        } else {
            1 + step_asks(before, pinned, intervals) + match carry_once(
                before,
                pinned,
                intervals,
            ) {
                Err(_) => 0,
                Ok(next) => carry_asks(next, pinned),
            }
        },
    }
}

/// What a binary carry asks, one merge at a time.
pub proof fn lemma_carry_asks(before: CarryState, pinned: Seq<ArtifactFileView>)
    ensures
        match forward_intervals(before.manifest.forward) {
            Err(_) => carry_asks(before, pinned) == 1,
            Ok(intervals) => if !carry_needed(intervals) || before.manifest.forward.len() < 3 {
                carry_asks(before, pinned) == 1
            } else {
                match carry_once(before, pinned, intervals) {
                    Err(_) => carry_asks(before, pinned) == 1 + step_asks(
                        before,
                        pinned,
                        intervals,
                    ),
                    Ok(next) => carry_asks(before, pinned) == 1 + step_asks(
                        before,
                        pinned,
                        intervals,
                    ) + carry_asks(next, pinned),
                }
            },
        },
{
    reveal_with_fuel(carry_asks, 2);
}

} // verus!
