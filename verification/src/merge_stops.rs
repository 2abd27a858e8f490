//! Where a merge of streams of records stops: a merge reads each stream one
//! record ahead, so a cut stream, a record out of order and a reused key are
//! reported in the order in which it comes upon them.
use vstd::prelude::*;
use vstd::string::*;

use crate::error::{GfError, storage_err};
use crate::framing::{decode_front, scan};
use crate::ordinal_compaction::{planned, v4_planned_file};
use crate::ordinal_format::{
    ArtifactFileView, TombstonesView, V4ArtifactFile, V4OrdinalTombstones, views,
};
use crate::records::{ForwardRecord, NodeTombstone};

verus! {

/// What stops the merge of two forward runs of which at least one is cut
/// after its last record: `left` and `right` are the records still to come,
/// after one with key `previous`.
pub open spec fn forward_stop(
    left: Seq<ForwardRecord>,
    left_cut: bool,
    right: Seq<ForwardRecord>,
    right_cut: bool,
    previous: Option<u128>,
) -> Seq<char>
    decreases left.len() + right.len(),
{
    if (left.len() == 0 && left_cut) || (right.len() == 0 && right_cut) || (left.len() == 0
        && right.len() == 0) {
        "truncated fixed-width index record"@
    } else if left.len() > 0 && right.len() > 0 && left[0].uuid == right[0].uuid {
        if (left.len() == 1 && left_cut) || (right.len() == 1 && right_cut) {
            "truncated fixed-width index record"@
        } else if left[0].node_id != right[0].node_id {
            "v4 compaction observed UUID reuse"@
        } else {
            forward_stop(left.skip(1), left_cut, right.skip(1), right_cut, Some(right[0].uuid))
        }
    } else {
        let from_left = left.len() > 0 && (right.len() == 0 || left[0].uuid < right[0].uuid);
        let next = if from_left {
            left[0]
        } else {
            right[0]
        };
        if previous is Some && previous->0 >= next.uuid {
            "v4 compaction input is not sorted unique"@
        } else if from_left {
            forward_stop(left.skip(1), left_cut, right, right_cut, Some(next.uuid))
        } else {
            forward_stop(left, left_cut, right.skip(1), right_cut, Some(next.uuid))
        }
    }
}

/// What stops the merge of two forward files.
pub open spec fn forward_files_stop(left: Seq<u8>, right: Seq<u8>) -> Seq<char> {
    let one = scan::<ForwardRecord>(left);
    let two = scan::<ForwardRecord>(right);
    forward_stop(one.0, one.1 is Some, two.0, two.1 is Some, None)
}

/// Say what stops the merge of two forward files of which one is cut.
pub fn explain_forward_stop(left: &Vec<u8>, right: &Vec<u8>) -> (error: GfError)
    ensures
        error.is_storage(forward_files_stop(left@, right@)),
{
    let (one, one_cut): (Vec<ForwardRecord>, bool) = decode_front(left.as_slice());
    let (two, two_cut): (Vec<ForwardRecord>, bool) = decode_front(right.as_slice());
    let ghost stop = forward_files_stop(left@, right@);
    let mut previous: Option<u128> = None;
    let mut i: usize = 0;
    let mut j: usize = 0;
    assert(one@.skip(0) =~= one@);
    assert(two@.skip(0) =~= two@);
    while !((i == one.len() && one_cut) || (j == two.len() && two_cut) || (i == one.len() && j
        == two.len()))
        invariant
            i <= one@.len(),
            j <= two@.len(),
            stop == forward_files_stop(left@, right@),
            stop == forward_stop(
                one@.skip(i as int),
                one_cut,
                two@.skip(j as int),
                two_cut,
                previous,
            ),
        decreases one.len() - i + two.len() - j,
    {
        proof {
            if i < one@.len() {
                assert(one@.skip(i as int).skip(1) =~= one@.skip(i + 1));
            }
            if j < two@.len() {
                assert(two@.skip(j as int).skip(1) =~= two@.skip(j + 1));
            }
        }
        if i < one.len() && j < two.len() && one[i].uuid == two[j].uuid {
            if (i + 1 == one.len() && one_cut) || (j + 1 == two.len() && two_cut) {
                return storage_err("truncated fixed-width index record");
            }
            if one[i].node_id != two[j].node_id {
                return storage_err("v4 compaction observed UUID reuse");
            }
            previous = Some(two[j].uuid);
            i = i + 1;
            j = j + 1;
        } else {
            let from_left: bool = i < one.len() && (j >= two.len() || one[i].uuid < two[j].uuid);
            let next: u128 = if from_left {
                one[i].uuid
            } else {
                two[j].uuid
            };
            let late: bool = match previous {
                Some(previous) => previous >= next,
                None => false,
            };
            if late {
                return storage_err("v4 compaction input is not sorted unique");
            }
            previous = Some(next);
            if from_left {
                i = i + 1;
            } else {
                j = j + 1;
            }
        }
    }
    storage_err("truncated fixed-width index record")
}

/// The records of a stream of identifiers, and whether it is cut after them.
#[verifier::ext_equal]
pub struct TombstoneSource {
    pub ids: Seq<NodeTombstone>,
    pub cut: bool,
}

/// The identifier a source gives next.
pub open spec fn head(sources: Seq<TombstoneSource>, at: Seq<nat>, i: int) -> Option<u64> {
    if at[i] < sources[i].ids.len() {
        Some(sources[i].ids[at[i] as int].node_id)
    } else {
        None
    }
}

/// The first of the first `n` sources whose next identifier is the least.
pub open spec fn least(sources: Seq<TombstoneSource>, at: Seq<nat>, n: int) -> Option<int>
    decreases n,
{
    if n <= 0 {
        None
    } else {
        match (head(sources, at, n - 1), least(sources, at, n - 1)) {
            (None, before) => before,
            (Some(_), None) => Some(n - 1),
            (Some(id), Some(k)) => if id < head(sources, at, k)->0 {
                Some(n - 1)
            } else {
                Some(k)
            },
        }
    }
}

/// Whether one of the first `n` sources is cut where the merge has come to.
pub open spec fn meets_cut(sources: Seq<TombstoneSource>, at: Seq<nat>, n: int) -> bool {
    exists|i: int|
        0 <= i < n && (#[trigger] sources[i]).cut && head(sources, at, i) is None
}

/// How many identifiers the first `n` sources still give.
pub open spec fn remaining(sources: Seq<TombstoneSource>, at: Seq<nat>, n: int) -> nat
    decreases n,
{
    if n <= 0 {
        0
    } else {
        remaining(sources, at, n - 1) + if at[n - 1] < sources[n - 1].ids.len() {
            (sources[n - 1].ids.len() - at[n - 1]) as nat
        } else {
            0
        }
    }
}

/// The chosen source has an identifier to give.
pub proof fn lemma_least(sources: Seq<TombstoneSource>, at: Seq<nat>, n: int)
    ensures
        least(sources, at, n) matches Some(k) ==> 0 <= k < n && head(sources, at, k) is Some,
    decreases n,
{
    if n > 0 {
        lemma_least(sources, at, n - 1);
    }
}

/// A source that has given an identifier has one less to give.
pub proof fn lemma_remaining(sources: Seq<TombstoneSource>, at: Seq<nat>, k: int, n: int)
    requires
        0 <= k < at.len(),
        n <= at.len(),
        head(sources, at, k) is Some,
    ensures
        remaining(sources, at.update(k, at[k] + 1), n) == if k < n {
            remaining(sources, at, n) - 1
        } else {
            remaining(sources, at, n) as int
        },
    decreases n,
{
    if n > 0 {
        lemma_remaining(sources, at, k, n - 1);
    }
}

/// What stops the merge of streams of identifiers that cannot be merged: the
/// merge has come to place `at[i]` of each source, after `previous`.
pub open spec fn tombstone_stop(
    sources: Seq<TombstoneSource>,
    at: Seq<nat>,
    previous: Option<u64>,
) -> Seq<char>
    decreases remaining(sources, at, sources.len() as int),
{
    let count = sources.len() as int;
    let chosen = least(sources, at, count);
    if meets_cut(sources, at, count) {
        "truncated fixed-width index record"@
    } else if chosen is None || at.len() != count {
        "v4 tombstone stream is not strictly increasing"@
    } else {
        proof {
            lemma_least(sources, at, count);
            lemma_remaining(sources, at, chosen->0, count);
        }
        let id = head(sources, at, chosen->0)->0;
        let next = at.update(chosen->0, at[chosen->0] + 1);
        if previous == Some(id) {
            tombstone_stop(sources, next, previous)
        } else if id == 0 || (previous is Some && previous->0 >= id) {
            "v4 tombstone stream is not strictly increasing"@
        } else {
            tombstone_stop(sources, next, Some(id))
        }
    }
}

/// Whether the file of every run is there.
pub open spec fn all_planned(
    runs: Seq<TombstonesView>,
    files: Seq<ArtifactFileView>,
    pinned: Seq<ArtifactFileView>,
) -> bool {
    forall|i: int|
        0 <= i < runs.len() ==> planned(files, pinned, (#[trigger] runs[i]).artifact.name) is Some
}

/// What the file of a run gives the merge.
pub open spec fn tombstone_source(content: Seq<u8>) -> TombstoneSource {
    let read = scan::<NodeTombstone>(content);
    TombstoneSource { ids: read.0, cut: read.1 is Some }
}

/// What the files of some runs give the merge.
pub open spec fn tombstone_sources(
    runs: Seq<TombstonesView>,
    files: Seq<ArtifactFileView>,
    pinned: Seq<ArtifactFileView>,
) -> Seq<TombstoneSource> {
    Seq::new(
        runs.len(),
        |i: int| tombstone_source(planned(files, pinned, runs[i].artifact.name)->0),
    )
}

/// What stops the merge of tombstone runs that cannot be merged: first a file
/// that is not there, for all are opened before any is read.
pub open spec fn tombstone_runs_stop(
    runs: Seq<TombstonesView>,
    files: Seq<ArtifactFileView>,
    pinned: Seq<ArtifactFileView>,
) -> Seq<char> {
    if all_planned(runs, files, pinned) {
        let sources = tombstone_sources(runs, files, pinned);
        tombstone_stop(sources, Seq::new(sources.len(), |i: int| 0nat), None)
    } else {
        "authenticated v4 update input is absent"@
    }
}

/// The places in a list of counters.
pub open spec fn places(at: Seq<usize>) -> Seq<nat> {
    Seq::new(at.len(), |i: int| at[i] as nat)
}

/// The sources of lists of records.
pub open spec fn source_views(ids: Seq<Vec<NodeTombstone>>, cuts: Seq<bool>) -> Seq<
    TombstoneSource,
> {
    Seq::new(ids.len(), |i: int| TombstoneSource { ids: ids[i]@, cut: cuts[i] })
}

pub(crate) fn find_cut(ids: &Vec<Vec<NodeTombstone>>, cuts: &Vec<bool>, at: &Vec<usize>) -> (found: bool)
    requires
        ids@.len() == cuts@.len() == at@.len(),
    ensures
        found == meets_cut(source_views(ids@, cuts@), places(at@), ids@.len() as int),
{
    let ghost sources = source_views(ids@, cuts@);
    let mut i: usize = 0;
    while i < ids.len()
        invariant
            i <= ids@.len(),
            ids@.len() == cuts@.len() == at@.len(),
            sources == source_views(ids@, cuts@),
            !meets_cut(sources, places(at@), i as int),
        decreases ids.len() - i,
    {
        assert(sources[i as int].cut == cuts@[i as int]);
        if cuts[i] && at[i] >= ids[i].len() {
            assert(head(sources, places(at@), i as int) is None);
            return true;
        }
        i = i + 1;
    }
    false
}

pub(crate) fn find_least(ids: &Vec<Vec<NodeTombstone>>, Ghost(cuts): Ghost<Seq<bool>>, at: &Vec<usize>) -> (
    found: Option<usize>)
    requires
        ids@.len() == at@.len(),
    ensures
        match least(source_views(ids@, cuts), places(at@), ids@.len() as int) {
            Some(k) => found matches Some(found) && found == k && found < ids@.len()
                && at@[found as int] < ids@[found as int]@.len(),
            None => found is None,
        },
{
    let ghost sources = source_views(ids@, cuts);
    let mut found: Option<usize> = None;
    let mut i: usize = 0;
    while i < ids.len()
        invariant
            i <= ids@.len(),
            ids@.len() == at@.len(),
            sources == source_views(ids@, cuts),
            match least(sources, places(at@), i as int) {
                Some(k) => found matches Some(found) && found == k && found < i
                    && at@[found as int] < ids@[found as int]@.len(),
                None => found is None,
            },
        decreases ids.len() - i,
    {
        if at[i] < ids[i].len() {
            let nearer: bool = match found {
                Some(k) => ids[i][at[i]].node_id < ids[k][at[k]].node_id,
                None => true,
            };
            if nearer {
                found = Some(i);
            }
        }
        i = i + 1;
    }
    found
}

/// Read what the files of some runs give the merge: the identifiers of each,
/// and whether it is cut after them; none where a file is not there.
pub(crate) fn read_sources(
    runs: &Vec<V4OrdinalTombstones>,
    files: &Vec<V4ArtifactFile>,
    pinned: &Vec<V4ArtifactFile>,
) -> (read: Option<(Vec<Vec<NodeTombstone>>, Vec<bool>)>)
    ensures
        match read {
            Some((ids, cuts)) => {
                &&& all_planned(views(runs@), views(files@), views(pinned@))
                &&& ids@.len() == cuts@.len()
                &&& source_views(ids@, cuts@) == tombstone_sources(
                    views(runs@),
                    views(files@),
                    views(pinned@),
                )
            },
            None => !all_planned(views(runs@), views(files@), views(pinned@)),
        },
{
    let ghost all = views(runs@);
    let ghost names = views(files@);
    let ghost retained = views(pinned@);
    let mut ids: Vec<Vec<NodeTombstone>> = Vec::new();
    let mut cuts: Vec<bool> = Vec::new();
    let mut i: usize = 0;
    while i < runs.len()
        invariant
            i <= runs@.len(),
            all == views(runs@),
            names == views(files@),
            retained == views(pinned@),
            ids@.len() == i,
            cuts@.len() == i,
            forall|k: int|
                0 <= k < i ==> planned(names, retained, (#[trigger] all[k]).artifact.name) is Some,
            forall|k: int|
                0 <= k < i ==> (TombstoneSource {
                    ids: (#[trigger] ids@[k])@,
                    cut: cuts@[k],
                }) == tombstone_source(planned(names, retained, all[k].artifact.name)->0),
        decreases runs.len() - i,
    {
        assert(all[i as int] == runs@[i as int]@);
        let content: &Vec<u8> = match v4_planned_file(files, pinned, &runs[i].artifact.name) {
            Ok(content) => content,
            Err(_) => {
                assert(!all_planned(all, names, retained));
                return None;
            },
        };
        let (read, cut): (Vec<NodeTombstone>, bool) = decode_front(content.as_slice());
        ids.push(read);
        cuts.push(cut);
        i = i + 1;
    }
    assert(source_views(ids@, cuts@) =~= tombstone_sources(all, names, retained));
    Some((ids, cuts))
}

/// Say what stops the merge of tombstone runs that cannot be merged.
pub fn explain_tombstone_stop(
    runs: &Vec<V4OrdinalTombstones>,
    files: &Vec<V4ArtifactFile>,
    pinned: &Vec<V4ArtifactFile>,
) -> (error: GfError)
    ensures
        error.is_storage(tombstone_runs_stop(views(runs@), views(files@), views(pinned@))),
{
    let (ids, cuts) = match read_sources(runs, files, pinned) {
        Some(sources) => sources,
        None => {
            return storage_err("authenticated v4 update input is absent");
        },
    };
    let ghost sources = source_views(ids@, cuts@);
    let ghost stop = tombstone_runs_stop(views(runs@), views(files@), views(pinned@));
    let mut at: Vec<usize> = Vec::new();
    while at.len() < ids.len()
        invariant
            at@.len() <= ids@.len(),
            forall|k: int| 0 <= k < at@.len() ==> #[trigger] at@[k] == 0,
        decreases ids.len() - at.len(),
    {
        at.push(0);
    }
    assert(places(at@) =~= Seq::new(sources.len(), |i: int| 0nat));
    let mut previous: Option<u64> = None;
    loop
        invariant
            ids@.len() == cuts@.len() == at@.len(),
            sources == source_views(ids@, cuts@),
            stop == tombstone_stop(sources, places(at@), previous),
            stop == tombstone_runs_stop(views(runs@), views(files@), views(pinned@)),
        decreases remaining(sources, places(at@), sources.len() as int),
    {
        if find_cut(&ids, &cuts, &at) {
            return storage_err("truncated fixed-width index record");
        }
        let chosen: usize = match find_least(&ids, Ghost(cuts@), &at) {
            Some(chosen) => chosen,
            None => {
                return storage_err("v4 tombstone stream is not strictly increasing");
            },
        };
        let id: u64 = ids[chosen][at[chosen]].node_id;
        let ghost before = places(at@);
        proof {
            lemma_remaining(sources, before, chosen as int, sources.len() as int);
        }
        let (again, late): (bool, bool) = match previous {
            Some(previous) => (previous == id, previous >= id),
            None => (false, false),
        };
        assert(ids@[chosen as int].len() <= usize::MAX);
        let place: usize = at[chosen] + 1;
        at.set(chosen, place);
        assert(places(at@) =~= before.update(chosen as int, before[chosen as int] + 1));
        if !again {
            if id == 0 || late {
                return storage_err("v4 tombstone stream is not strictly increasing");
            }
            previous = Some(id);
        }
    }
}

} // verus!
