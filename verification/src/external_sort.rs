//! Bounded sorting: records are sorted in runs of a bounded length, and the
//! runs are merged in rounds of a bounded fan-in.
use vstd::prelude::*;

use crate::error::{GfError, storage_err};
use crate::keyed::{
    has_key, is_ordered, is_union, key_determines, key_order, Keyed, lemma_is_key_order,
    lemma_key_order, lemma_multiset_contains, merge_disjoint, ordered, same_items, share_key,
    sort_by_key, with_item,
};
use crate::ordinal_format::{larger, max_of};

verus! {

/// Bounds of a rebuild.
#[derive(Clone, Copy, Debug, PartialEq, Eq, Structural)]
pub struct UuidIndexBuildLimits {
    /// Rows decoded at a time.
    pub scan_batch_rows: usize,
    /// Records sorted at a time.
    pub run_records: usize,
    /// Runs merged at a time.
    pub merge_fan_in: usize,
}

impl UuidIndexBuildLimits {
    /// Whether work within the bounds makes progress.
    pub open spec fn valid(self) -> bool {
        self.scan_batch_rows > 0 && self.run_records > 0 && self.merge_fan_in >= 2
    }

    /// Check the bounds.
    pub fn validate(self) -> (limits: Result<UuidIndexBuildLimits, GfError>)
        ensures
            match limits {
                Ok(limits) => self.valid() && limits == self,
                Err(error) => !self.valid() && error.is_storage(
                    "UUID index build limits are invalid"@,
                ),
            },
    {
        if self.scan_batch_rows == 0 || self.run_records == 0 || self.merge_fan_in < 2 {
            return Err(storage_err("UUID index build limits are invalid"));
        }
        Ok(self)
    }
}

/// Counters of a rebuild.
#[derive(Clone, Copy, Debug, PartialEq, Eq, Structural)]
pub struct UuidIndexBuildMetrics {
    /// Nodes indexed.
    pub node_count: u64,
    /// Edges indexed.
    pub edge_count: u64,
    /// Temporary runs written.
    pub temporary_runs: u64,
    /// Most records buffered at a time.
    pub peak_buffered_records: u64,
}

/// Counters before any work.
pub open spec fn no_rebuild_metrics() -> UuidIndexBuildMetrics {
    UuidIndexBuildMetrics {
        node_count: 0,
        edge_count: 0,
        temporary_runs: 0,
        peak_buffered_records: 0,
    }
}

impl UuidIndexBuildMetrics {
    /// Counters before any work.
    pub fn none() -> (metrics: UuidIndexBuildMetrics)
        ensures
            metrics == no_rebuild_metrics(),
    {
        UuidIndexBuildMetrics {
            node_count: 0,
            edge_count: 0,
            temporary_runs: 0,
            peak_buffered_records: 0,
        }
    }
}

/// Whether two records have one key.
pub open spec fn repeats<T: Keyed>(items: Seq<T>) -> bool {
    exists|i: int, j: int|
        0 <= i < j < items.len() && (#[trigger] items[i]).key() == (#[trigger] items[j]).key()
}

/// The run with a number, where every run but the last has `n` records.
pub open spec fn nth_run<T>(items: Seq<T>, k: int, n: nat) -> Seq<T> {
    items.subrange(
        k * n,
        if k * n + n < items.len() {
            k * n + n
        } else {
            items.len() as int
        },
    )
}

/// Whether two records of one run have one key.
pub open spec fn run_repeats<T: Keyed>(items: Seq<T>, n: nat) -> bool {
    exists|k: int| 0 <= k && k * n < items.len() && repeats(#[trigger] nth_run(items, k, n))
}

/// Runs of `n` that `len` records take.
pub open spec fn run_count(len: nat, n: nat) -> nat
    decreases len,
{
    if len == 0 || n == 0 {
        0
    } else if len <= n {
        1
    } else {
        1 + run_count((len - n) as nat, n)
    }
}

/// Cutting records into runs of at least two leaves fewer runs than records.
pub proof fn lemma_run_count(len: nat, n: nat)
    requires
        n >= 2,
    ensures
        run_count(len, n) <= len,
        len >= 2 ==> run_count(len, n) < len,
    decreases len,
{
    if len > n {
        lemma_run_count((len - n) as nat, n);
    }
}

/// Runs written by merging `runs` runs in rounds.
pub open spec fn merge_outputs(runs: nat, fan_in: nat) -> nat
    decreases runs,
    when fan_in >= 2
{
    if runs <= 1 {
        0
    } else {
        proof {
            lemma_run_count(runs, fan_in);
        }
        run_count(runs, fan_in) + merge_outputs(run_count(runs, fan_in), fan_in)
    }
}

/// Whether a run is the ordered form of the records of an interval.
spec fn run_of<T: Keyed>(items: Seq<T>, run: Seq<T>, lo: int, hi: int) -> bool {
    &&& 0 <= lo <= hi <= items.len()
    &&& ordered(run)
    &&& same_items(run, items.subrange(lo, hi))
    &&& !repeats(items.subrange(lo, hi))
}

proof fn lemma_shared<T: Keyed>(
    items: Seq<T>,
    left: Seq<T>,
    right: Seq<T>,
    lo: int,
    mid: int,
    hi: int,
)
    requires
        run_of(items, left, lo, mid),
        run_of(items, right, mid, hi),
        share_key(left, right),
    ensures
        repeats(items),
{
    let i = choose|i: int| 0 <= i < left.len() && has_key(right, (#[trigger] left[i]).key());
    let j = choose|j: int|
        0 <= j < right.len() && (#[trigger] right[j]).key() == left[i].key();
    let a = items.subrange(lo, mid);
    let b = items.subrange(mid, hi);
    assert(left.contains(left[i]));
    assert(right.contains(right[j]));
    assert(a.contains(left[i]));
    assert(b.contains(right[j]));
    let p = choose|p: int| 0 <= p < a.len() && a[p] == left[i];
    let q = choose|q: int| 0 <= q < b.len() && b[q] == right[j];
    assert(items[lo + p].key() == items[mid + q].key());
}

proof fn lemma_joined<T: Keyed>(
    items: Seq<T>,
    left: Seq<T>,
    right: Seq<T>,
    out: Seq<T>,
    lo: int,
    mid: int,
    hi: int,
)
    requires
        run_of(items, left, lo, mid),
        run_of(items, right, mid, hi),
        !share_key(left, right),
        ordered(out),
        is_union(out, left, right),
    ensures
        run_of(items, out, lo, hi),
{
    let a = items.subrange(lo, mid);
    let b = items.subrange(mid, hi);
    let c = items.subrange(lo, hi);
    assert(c =~= a + b);
    assert forall|item: T| out.contains(item) == c.contains(item) by {
        assert(left.contains(item) == a.contains(item));
        assert(right.contains(item) == b.contains(item));
        assert(out.contains(item) <==> left.contains(item) || right.contains(item));
        if a.contains(item) {
            let p = choose|p: int| 0 <= p < a.len() && a[p] == item;
            assert(c[p] == item);
        }
        if b.contains(item) {
            let p = choose|p: int| 0 <= p < b.len() && b[p] == item;
            assert(c[a.len() + p] == item);
        }
        if c.contains(item) {
            let p = choose|p: int| 0 <= p < c.len() && c[p] == item;
            if p < a.len() {
                assert(a[p] == item);
            } else {
                assert(b[p - a.len()] == item);
            }
        }
    }
    if repeats(c) {
        let (i, j) = choose|i: int, j: int|
            0 <= i < j < c.len() && (#[trigger] c[i]).key() == (#[trigger] c[j]).key();
        if j < a.len() {
            assert(a[i].key() == a[j].key());
        } else if i >= a.len() {
            assert(b[i - a.len()].key() == b[j - a.len()].key());
        } else {
            assert(a.contains(a[i]));
            assert(b.contains(b[j - a.len()]));
            assert(left.contains(a[i]));
            assert(right.contains(b[j - a.len()]));
            let p = choose|p: int| 0 <= p < left.len() && left[p] == a[i];
            let q = choose|q: int| 0 <= q < right.len() && right[q] == b[j - a.len()];
            assert(right[q].key() == left[p].key());
            assert(has_key(right, left[p].key()));
        }
    }
}

/// Sort records and say whether no key repeats.
pub fn sort_distinct<T: Keyed>(items: &Vec<T>) -> (run: Option<Vec<T>>)
    ensures
        match run {
            Some(run) => ordered(run@) && same_items(run@, items@) && !repeats(items@),
            None => repeats(items@),
        },
{
    let run: Vec<T> = sort_by_key(items);
    proof {
        lemma_multiset_contains(run@, items@);
        lemma_repeats_multiset(run@, items@);
    }
    if is_ordered(&run) {
        assert(!repeats(run@));
        Some(run)
    } else {
        proof {
            let (i, j) = choose|i: int, j: int|
                0 <= i < j < run@.len() && (#[trigger] run@[i]).key() >= (#[trigger] run@[j]).key();
            assert(run@[i].key() <= run@[j].key());
            assert(repeats(run@));
        }
        None
    }
}

proof fn lemma_repeats_multiset<T: Keyed>(left: Seq<T>, right: Seq<T>)
    requires
        left.to_multiset() == right.to_multiset(),
    ensures
        repeats(left) == repeats(right),
{
    if repeats(left) {
        lemma_repeats_moves(left, right);
    }
    if repeats(right) {
        lemma_repeats_moves(right, left);
    }
}

proof fn lemma_repeats_moves<T: Keyed>(left: Seq<T>, right: Seq<T>)
    requires
        left.to_multiset() == right.to_multiset(),
        repeats(left),
    ensures
        repeats(right),
{
    broadcast use vstd::seq_lib::group_to_multiset_ensures;

    let (i, j) = choose|i: int, j: int|
        0 <= i < j < left.len() && (#[trigger] left[i]).key() == (#[trigger] left[j]).key();
    let x = left[i];
    let y = left[j];
    assert(left.contains(x));
    assert(right.to_multiset().contains(x));
    assert(right.contains(x));
    let p = choose|p: int| 0 <= p < right.len() && right[p] == x;
    let l = left.remove(i);
    let r = right.remove(p);
    vstd::seq_lib::to_multiset_remove(left, i);
    vstd::seq_lib::to_multiset_remove(right, p);
    assert(l[j - 1] == y);
    assert(l.contains(y));
    assert(r.to_multiset().contains(y));
    assert(r.contains(y));
    let q = choose|q: int| 0 <= q < r.len() && r[q] == y;
    let q2 = if q < p {
        q
    } else {
        q + 1
    };
    assert(right[q2] == y);
    if q2 < p {
        assert(right[q2].key() == right[p].key());
    } else {
        assert(right[p].key() == right[q2].key());
    }
}

spec fn runs_of<T: Keyed>(items: Seq<T>, runs: Seq<Vec<T>>, bounds: Seq<int>) -> bool {
    &&& bounds.len() == runs.len() + 1
    &&& bounds[0] == 0
    &&& forall|k: int|
        0 <= k < runs.len() ==> run_of(items, (#[trigger] runs[k])@, bounds[k], bounds[k + 1])
}

pub(crate) fn copy_range<T: Keyed>(items: &Vec<T>, start: usize, end: usize) -> (part: Vec<T>)
    requires
        start <= end <= items@.len(),
    ensures
        part@ == items@.subrange(start as int, end as int),
{
    let mut part: Vec<T> = Vec::new();
    let mut i: usize = start;
    while i < end
        invariant
            start <= i <= end <= items@.len(),
            part@ == items@.subrange(start as int, i as int),
        decreases end - i,
    {
        part.push(items[i]);
        assert(part@ =~= items@.subrange(start as int, i + 1));
        i = i + 1;
    }
    part
}

/// Sort records in runs of at most `n` records; `None` where a key repeats in
/// a run.
fn sort_into_runs<T: Keyed>(items: &Vec<T>, n: usize) -> (runs: Option<
    (Vec<Vec<T>>, Ghost<Seq<int>>),
>)
    requires
        n > 0,
    ensures
        match runs {
            Some((runs, bounds)) => {
                &&& !run_repeats(items@, n as nat)
                &&& runs@.len() == run_count(items@.len(), n as nat)
                &&& runs_of(items@, runs@, bounds@)
                &&& bounds@.last() == items@.len()
            },
            None => run_repeats(items@, n as nat),
        },
{
    let ghost all = items@;
    let mut runs: Vec<Vec<T>> = Vec::new();
    let ghost mut bounds: Seq<int> = seq![0];
    let mut start: usize = 0;
    assert(runs@.len() * n == 0) by (nonlinear_arith)
        requires
            runs@.len() == 0,
    ;
    while start < items.len()
        invariant
            start <= items.len(),
            all == items@,
            n > 0,
            start == all.len() || start == runs@.len() * n,
            run_count(all.len(), n as nat) == runs@.len() + run_count(
                (all.len() - start) as nat,
                n as nat,
            ),
            runs_of(all, runs@, bounds),
            bounds.last() == start,
            start == all.len() ==> runs@.len() * n >= all.len(),
            forall|k: int|
                0 <= k < runs@.len() ==> !repeats(#[trigger] nth_run(all, k, n as nat)),
        decreases items.len() - start,
    {
        let end: usize = if items.len() - start > n {
            start + n
        } else {
            items.len()
        };
        let part: Vec<T> = copy_range(items, start, end);
        let ghost k = runs@.len() as int;
        let ghost before = runs@;
        let ghost old_bounds = bounds;
        assert(part@ =~= nth_run(all, k, n as nat));
        match sort_distinct(&part) {
            Some(run) => {
                runs.push(run);
                proof {
                    bounds = bounds.push(end as int);
                    assert((k + 1) * n == k * n + n) by (nonlinear_arith);
                    assert forall|m: int| 0 <= m < runs@.len() implies run_of(
                        all,
                        (#[trigger] runs@[m])@,
                        bounds[m],
                        bounds[m + 1],
                    ) by {
                        if m < k {
                            assert(runs@[m] == before[m]);
                            assert(bounds[m] == old_bounds[m]);
                            assert(bounds[m + 1] == old_bounds[m + 1]);
                        } else {
                            assert(bounds[m] == start);
                        }
                    }
                }
            },
            None => {
                assert(repeats(nth_run(all, k, n as nat)));
                return None;
            },
        }
        start = end;
    }
    proof {
        if run_repeats(all, n as nat) {
            let k = choose|k: int|
                0 <= k && k * n < all.len() && repeats(#[trigger] nth_run(all, k, n as nat));
            assert(k < runs@.len()) by (nonlinear_arith)
                requires
                    k * n < all.len(),
                    all.len() <= runs@.len() * n,
                    n > 0,
            ;
        }
    }
    Some((runs, Ghost(bounds)))
}

/// Whether a key repeats within a run.
pub fn repeats_within_run<T: Keyed>(items: &Vec<T>, n: usize) -> (yes: bool)
    requires
        n > 0,
    ensures
        yes == run_repeats(items@, n as nat),
{
    match sort_into_runs(items, n) {
        Some(_) => false,
        None => true,
    }
}

/// Merge runs in groups of `fan_in`; `None` where two runs share a key.
fn merge_round<T: Keyed>(
    runs: &Vec<Vec<T>>,
    fan_in: usize,
    Ghost(items): Ghost<Seq<T>>,
    Ghost(bounds): Ghost<Seq<int>>,
) -> (merged: Option<(Vec<Vec<T>>, Ghost<Seq<int>>)>)
    requires
        fan_in >= 2,
        runs_of(items, runs@, bounds),
    ensures
        match merged {
            Some((next, next_bounds)) => {
                &&& runs_of(items, next@, next_bounds@)
                &&& next_bounds@.last() == bounds.last()
                &&& next@.len() == run_count(runs@.len(), fan_in as nat)
            },
            None => repeats(items),
        },
{
    let mut next: Vec<Vec<T>> = Vec::new();
    let ghost mut next_bounds: Seq<int> = seq![0];
    let mut at: usize = 0;
    while at < runs.len()
        invariant
            at <= runs.len(),
            fan_in >= 2,
            runs_of(items, runs@, bounds),
            runs_of(items, next@, next_bounds),
            next_bounds.last() == bounds[at as int],
            run_count(runs@.len(), fan_in as nat) == next@.len() + run_count(
                (runs@.len() - at) as nat,
                fan_in as nat,
            ),
        decreases runs.len() - at,
    {
        let end: usize = if runs.len() - at > fan_in {
            at + fan_in
        } else {
            runs.len()
        };
        let first: usize = at;
        let mut merged: Vec<T> = copy_range(&runs[at], 0, runs[at].len());
        assert(merged@ =~= runs@[at as int]@);
        at = at + 1;
        while at < end
            invariant
                first < at <= end <= runs@.len(),
                runs_of(items, runs@, bounds),
                run_of(items, merged@, bounds[first as int], bounds[at as int]),
            decreases end - at,
        {
            let ghost left = merged@;
            let ghost right = runs@[at as int]@;
            match merge_disjoint(&merged, &runs[at]) {
                Some(out) => {
                    proof {
                        lemma_joined(
                            items,
                            left,
                            right,
                            out@,
                            bounds[first as int],
                            bounds[at as int],
                            bounds[at + 1],
                        );
                    }
                    merged = out;
                },
                None => {
                    proof {
                        lemma_shared(
                            items,
                            left,
                            right,
                            bounds[first as int],
                            bounds[at as int],
                            bounds[at + 1],
                        );
                    }
                    return None;
                },
            }
            at = at + 1;
        }
        let ghost before = next@;
        let ghost old_bounds = next_bounds;
        next.push(merged);
        proof {
            next_bounds = next_bounds.push(bounds[at as int]);
            assert forall|m: int| 0 <= m < next@.len() implies run_of(
                items,
                (#[trigger] next@[m])@,
                next_bounds[m],
                next_bounds[m + 1],
            ) by {
                if m < before.len() {
                    assert(next@[m] == before[m]);
                    assert(next_bounds[m] == old_bounds[m]);
                    assert(next_bounds[m + 1] == old_bounds[m + 1]);
                }
            }
        }
    }
    Some((next, Ghost(next_bounds)))
}

/// Why records cannot be put in order without repeating a key.
#[derive(Clone, Copy, Debug, PartialEq, Eq, Structural)]
pub enum Repeat {
    /// A key repeats within a run.
    WithinRun,
    /// A key repeats in two runs.
    AcrossRuns,
}

/// Counters after sorting `len` records.
pub open spec fn sorted_metrics(
    metrics: UuidIndexBuildMetrics,
    len: nat,
    limits: UuidIndexBuildLimits,
    merges: bool,
) -> UuidIndexBuildMetrics {
    let runs = run_count(len, limits.run_records as nat);
    let written = if merges {
        runs + merge_outputs(runs, limits.merge_fan_in as nat)
    } else {
        runs
    };
    UuidIndexBuildMetrics {
        temporary_runs: if metrics.temporary_runs + written > u64::MAX {
            u64::MAX
        } else {
            (metrics.temporary_runs + written) as u64
        },
        peak_buffered_records: larger(
            metrics.peak_buffered_records,
            if len < limits.run_records {
                len as u64
            } else {
                limits.run_records as u64
            },
        ),
        ..metrics
    }
}

/// Put records in key order in bounded memory; `merges` says whether merged
/// runs count as temporary runs.
pub fn external_sort<T: Keyed>(
    items: &Vec<T>,
    limits: UuidIndexBuildLimits,
    merges: bool,
    metrics: &mut UuidIndexBuildMetrics,
) -> (out: Result<Vec<T>, Repeat>)
    requires
        limits.valid(),
    ensures
        match out {
            Ok(out) => {
                &&& !repeats(items@)
                &&& ordered(out@)
                &&& out@ == key_order(items@)
                &&& *final(metrics) == sorted_metrics(*old(metrics), items@.len(), limits, merges)
            },
            Err(Repeat::WithinRun) => run_repeats(items@, limits.run_records as nat)
                && *final(metrics) == *old(metrics),
            Err(Repeat::AcrossRuns) => repeats(items@) && !run_repeats(
                items@,
                limits.run_records as nat,
            ) && *final(metrics) == *old(metrics),
        },
{
    let ghost all = items@;
    let (mut runs, bounds): (Vec<Vec<T>>, Ghost<Seq<int>>) = match sort_into_runs(
        items,
        limits.run_records,
    ) {
        Some(runs) => runs,
        None => {
            return Err(Repeat::WithinRun);
        },
    };
    let mut bounds: Ghost<Seq<int>> = bounds;
    let ghost count = runs@.len();
    let ghost fan_in = limits.merge_fan_in as nat;
    let mut written: u64 = runs.len() as u64;
    let ghost mut total: nat = count;
    while runs.len() > 1
        invariant
            all == items@,
            limits.valid(),
            fan_in == limits.merge_fan_in,
            !run_repeats(all, limits.run_records as nat),
            *metrics == *old(metrics),
            runs_of(all, runs@, bounds@),
            bounds@.last() == all.len(),
            count + merge_outputs(count, fan_in) == total + merge_outputs(runs@.len(), fan_in),
            written == if merges {
                if total > u64::MAX {
                    u64::MAX
                } else {
                    total as u64
                }
            } else {
                count as u64
            },
            count <= usize::MAX,
            runs@.len() <= count,
            runs@.len() == 0 ==> count == 0,
        decreases runs.len(),
    {
        proof {
            lemma_run_count(runs@.len(), fan_in);
        }
        match merge_round(&runs, limits.merge_fan_in, Ghost(all), bounds) {
            Some((next, next_bounds)) => {
                if merges {
                    written = crate::bytes::saturating_sum(written, next.len() as u64);
                }
                proof {
                    total = total + next@.len();
                }
                runs = next;
                bounds = next_bounds;
            },
            None => {
                return Err(Repeat::AcrossRuns);
            },
        }
    }
    proof {
        lemma_whole(all, runs@, bounds@);
    }
    let peak: u64 = if items.len() < limits.run_records {
        items.len() as u64
    } else {
        limits.run_records as u64
    };
    let mut after: UuidIndexBuildMetrics = *metrics;
    after.temporary_runs = crate::bytes::saturating_sum(after.temporary_runs, written);
    after.peak_buffered_records = max_of(after.peak_buffered_records, peak);
    *metrics = after;
    let out: Vec<T> = match runs.pop() {
        Some(run) => run,
        None => Vec::new(),
    };
    proof {
        assert(key_determines(all)) by {
            assert forall|i: int, j: int|
                0 <= i < all.len() && 0 <= j < all.len() && (#[trigger] all[i]).key() == (
                #[trigger] all[j]).key() implies all[i] == all[j] by {
                if i < j {
                    assert(repeats(all));
                } else if j < i {
                    assert(all[j].key() == all[i].key());
                    assert(repeats(all));
                }
            }
        }
        assert(same_items(out@, all));
        lemma_is_key_order(out@, all);
    }
    Ok(out)
}

proof fn lemma_whole<T: Keyed>(items: Seq<T>, runs: Seq<Vec<T>>, bounds: Seq<int>)
    requires
        runs_of(items, runs, bounds),
        bounds.last() == items.len(),
        runs.len() <= 1,
    ensures
        !repeats(items),
        runs.len() == 0 ==> items.len() == 0,
        runs.len() == 1 ==> ordered(runs[0]@) && same_items(runs[0]@, items),
{
    if runs.len() == 1 {
        assert(run_of(items, runs[0]@, bounds[0], bounds[1]));
        assert(items.subrange(0, items.len() as int) =~= items);
    }
}

proof fn lemma_with_item_len<T: Keyed>(items: Seq<T>, item: T)
    requires
        forall|i: int| 0 <= i < items.len() ==> (#[trigger] items[i]).key() != item.key(),
    ensures
        with_item(items, item).len() == items.len() + 1,
    decreases items.len(),
{
    if items.len() > 0 {
        assert(items[items.len() - 1].key() != item.key());
        if items.last().key() > item.key() {
            let head = items.drop_last();
            assert forall|i: int| 0 <= i < head.len() implies (#[trigger] head[i]).key()
                != item.key() by {
                assert(items[i].key() != item.key());
            }
            lemma_with_item_len(head, item);
        }
    }
}

/// Putting records whose keys differ in order loses none.
pub proof fn lemma_key_order_len<T: Keyed>(items: Seq<T>)
    requires
        !repeats(items),
    ensures
        key_order(items).len() == items.len(),
    decreases items.len(),
{
    if items.len() > 0 {
        let head = items.drop_last();
        let last = items.last();
        if repeats(head) {
            let (i, j) = choose|i: int, j: int|
                0 <= i < j < head.len() && (#[trigger] head[i]).key() == (#[trigger] head[j]).key();
            assert(items[i].key() == items[j].key());
        }
        lemma_key_order_len(head);
        assert(key_determines(head)) by {
            assert forall|i: int, j: int|
                0 <= i < head.len() && 0 <= j < head.len() && (#[trigger] head[i]).key() == (
                #[trigger] head[j]).key() implies head[i] == head[j] by {
                if i < j {
                    assert(repeats(head));
                } else if j < i {
                    assert(head[j].key() == head[i].key());
                    assert(repeats(head));
                }
            }
        }
        lemma_key_order(head);
        let before = key_order(head);
        assert forall|i: int| 0 <= i < before.len() implies (#[trigger] before[i]).key()
            != last.key() by {
            assert(before.contains(before[i]));
            assert(head.contains(before[i]));
            let k = choose|k: int| 0 <= k < head.len() && head[k] == before[i];
            if head[k].key() == last.key() {
                assert(items[k].key() == items[items.len() - 1].key());
                assert(repeats(items));
            }
        }
        lemma_with_item_len(before, last);
    }
}

} // verus!
