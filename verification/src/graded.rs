//! Stable sorting of descriptors by a number.
use vstd::prelude::*;

use crate::keyed::lemma_push_contains;
use crate::ordinal_format::{
    Duplicated, RangeView, TombstonesView, V4OrdinalRange, V4OrdinalTombstones, views,
};

verus! {

/// A value with a number to sort it by.
pub trait Graded: Duplicated {
    /// The number of a model.
    spec fn grade(view: Self::V) -> int;

    /// The number of a value.
    fn grade_value(&self) -> (grade: u64)
        ensures
            grade == Self::grade(self@),
    ;
}

/// Sorted values with one more after those not above it.
pub open spec fn graded_with<T: Graded>(items: Seq<T::V>, item: T::V) -> Seq<T::V>
    decreases items.len(),
{
    if items.len() == 0 || T::grade(items.last()) <= T::grade(item) {
        items.push(item)
    } else {
        graded_with::<T>(items.drop_last(), item).push(items.last())
    }
}

/// Values by their number; values with one number keep their order.
pub open spec fn by_grade<T: Graded>(items: Seq<T::V>) -> Seq<T::V>
    decreases items.len(),
{
    if items.len() == 0 {
        Seq::empty()
    } else {
        graded_with::<T>(by_grade::<T>(items.drop_last()), items.last())
    }
}

fn insert_graded<T: Graded>(items: &mut Vec<T>, item: T)
    ensures
        views(final(items)@) == graded_with::<T>(views(old(items)@), item@),
{
    let ghost all = views(items@);
    let grade: u64 = item.grade_value();
    let mut at: usize = items.len();
    assert(all.take(at as int) =~= all);
    assert(all.skip(at as int) =~= Seq::<T::V>::empty());
    assert(graded_with::<T>(all, item@) + Seq::<T::V>::empty() =~= graded_with::<T>(all, item@));
    while at > 0 && items[at - 1].grade_value() > grade
        invariant
            at <= items@.len(),
            all == views(items@),
            items@ == old(items)@,
            grade == T::grade(item@),
            graded_with::<T>(all, item@) == graded_with::<T>(all.take(at as int), item@)
                + all.skip(at as int),
        decreases at,
    {
        proof {
            let head = all.take(at as int);
            assert(all[at - 1] == items@[at - 1]@);
            assert(head.drop_last() =~= all.take(at - 1));
            assert(all.skip(at - 1) =~= seq![all[at - 1]] + all.skip(at as int));
            assert(graded_with::<T>(head, item@) + all.skip(at as int) =~= graded_with::<T>(
                all.take(at - 1),
                item@,
            ) + all.skip(at - 1));
        }
        at = at - 1;
    }
    proof {
        let head = all.take(at as int);
        if at > 0 {
            assert(head.last() == items@[at - 1]@);
        }
        assert(graded_with::<T>(head, item@) == head.push(item@));
    }
    items.insert(at, item);
    assert(views(items@) =~= all.take(at as int).push(item@) + all.skip(at as int));
}

/// Sort values by their number.
pub fn sort_by_grade<T: Graded>(items: Vec<T>) -> (sorted: Vec<T>)
    ensures
        views(sorted@) == by_grade::<T>(views(items@)),
{
    let ghost all = views(items@);
    let mut sorted: Vec<T> = Vec::new();
    let mut i: usize = 0;
    assert(all.take(0) =~= Seq::<T::V>::empty());
    assert(views(sorted@) =~= Seq::<T::V>::empty());
    while i < items.len()
        invariant
            i <= items@.len(),
            all == views(items@),
            views(sorted@) == by_grade::<T>(all.take(i as int)),
        decreases items.len() - i,
    {
        assert(all.take(i + 1).drop_last() =~= all.take(i as int));
        assert(all[i as int] == items@[i as int]@);
        insert_graded(&mut sorted, items[i].duplicate());
        i = i + 1;
    }
    assert(all.take(i as int) =~= all);
    sorted
}

proof fn lemma_graded_with<T: Graded>(items: Seq<T::V>, item: T::V)
    requires
        forall|i: int, j: int|
            0 <= i < j < items.len() ==> T::grade(#[trigger] items[i]) <= T::grade(
                #[trigger] items[j],
            ),
    ensures
        ({
            let out = graded_with::<T>(items, item);
            &&& out.len() == items.len() + 1
            &&& forall|i: int, j: int|
                0 <= i < j < out.len() ==> T::grade(#[trigger] out[i]) <= T::grade(
                    #[trigger] out[j],
                )
            &&& forall|i: int|
                0 <= i < out.len() ==> (#[trigger] out[i]) == item || items.contains(out[i])
        }),
    decreases items.len(),
{
    let out = graded_with::<T>(items, item);
    if items.len() == 0 || T::grade(items.last()) <= T::grade(item) {
        assert forall|i: int| 0 <= i < out.len() implies (#[trigger] out[i]) == item
            || items.contains(out[i]) by {
            if i < items.len() {
                assert(items[i] == out[i]);
            }
        }
        assert forall|i: int, j: int| 0 <= i < j < out.len() implies T::grade(#[trigger] out[i])
            <= T::grade(#[trigger] out[j]) by {
            if j == items.len() && i < items.len() - 1 {
                assert(T::grade(items[i]) <= T::grade(items[items.len() - 1]));
            }
        }
    } else {
        let head = items.drop_last();
        assert forall|i: int, j: int| 0 <= i < j < head.len() implies T::grade(#[trigger] head[i])
            <= T::grade(#[trigger] head[j]) by {
            assert(T::grade(items[i]) <= T::grade(items[j]));
        }
        lemma_graded_with::<T>(head, item);
        let rest = graded_with::<T>(head, item);
        assert forall|i: int| 0 <= i < out.len() implies (#[trigger] out[i]) == item
            || items.contains(out[i]) by {
            if i < rest.len() {
                assert(rest[i] == item || head.contains(rest[i]));
                if rest[i] != item {
                    let k = choose|k: int| 0 <= k < head.len() && head[k] == rest[i];
                    assert(items[k] == out[i]);
                }
            } else {
                assert(items[items.len() - 1] == out[i]);
            }
        }
        assert forall|i: int, j: int| 0 <= i < j < out.len() implies T::grade(#[trigger] out[i])
            <= T::grade(#[trigger] out[j]) by {
            if j < rest.len() {
                assert(T::grade(rest[i]) <= T::grade(rest[j]));
            } else if rest[i] != item {
                assert(head.contains(rest[i]));
                let k = choose|k: int| 0 <= k < head.len() && head[k] == rest[i];
                assert(T::grade(items[k]) <= T::grade(items[items.len() - 1]));
            }
        }
    }
}

/// Sorted values are in order, as many as before, and none but those.
pub proof fn lemma_by_grade<T: Graded>(items: Seq<T::V>)
    ensures
        ({
            let out = by_grade::<T>(items);
            &&& out.len() == items.len()
            &&& forall|i: int, j: int|
                0 <= i < j < out.len() ==> T::grade(#[trigger] out[i]) <= T::grade(
                    #[trigger] out[j],
                )
            &&& forall|i: int| 0 <= i < out.len() ==> items.contains(#[trigger] out[i])
        }),
    decreases items.len(),
{
    if items.len() > 0 {
        let head = items.drop_last();
        lemma_by_grade::<T>(head);
        lemma_graded_with::<T>(by_grade::<T>(head), items.last());
        let out = by_grade::<T>(items);
        assert forall|i: int| 0 <= i < out.len() implies items.contains(#[trigger] out[i]) by {
            if out[i] == items.last() {
                assert(items[items.len() - 1] == out[i]);
            } else {
                assert(by_grade::<T>(head).contains(out[i]));
                let k = choose|k: int|
                    0 <= k < by_grade::<T>(head).len() && by_grade::<T>(head)[k] == out[i];
                assert(head.contains(by_grade::<T>(head)[k]));
                let m = choose|m: int| 0 <= m < head.len() && head[m] == out[i];
                assert(items[m] == out[i]);
            }
        }
    }
}

impl Graded for V4OrdinalTombstones {
    open spec fn grade(view: TombstonesView) -> int {
        view.generation as int
    }

    fn grade_value(&self) -> (grade: u64) {
        self.generation
    }
}

impl Graded for V4OrdinalRange {
    open spec fn grade(view: RangeView) -> int {
        view.first_node_id as int
    }

    fn grade_value(&self) -> (grade: u64) {
        self.first_node_id
    }
}

proof fn lemma_graded_with_holds<T: Graded>(items: Seq<T::V>, item: T::V, other: T::V)
    ensures
        graded_with::<T>(items, item).contains(other) <==> items.contains(other) || other == item,
    decreases items.len(),
{
    if items.len() == 0 || T::grade(items.last()) <= T::grade(item) {
        lemma_push_contains(items, item);
        assert(items.push(item).contains(other) <==> items.contains(other) || other == item);
    } else {
        let head = items.drop_last();
        lemma_graded_with_holds::<T>(head, item, other);
        lemma_push_contains(graded_with::<T>(head, item), items.last());
        lemma_push_contains(head, items.last());
        assert(items =~= head.push(items.last()));
        assert(graded_with::<T>(head, item).push(items.last()).contains(other) <==> graded_with::<
            T,
        >(head, item).contains(other) || other == items.last());
        assert(head.push(items.last()).contains(other) <==> head.contains(other) || other
            == items.last());
    }
}

/// Sorting loses no value and adds none.
pub proof fn lemma_by_grade_holds<T: Graded>(items: Seq<T::V>, item: T::V)
    ensures
        by_grade::<T>(items).contains(item) <==> items.contains(item),
    decreases items.len(),
{
    if items.len() > 0 {
        let head = items.drop_last();
        lemma_by_grade_holds::<T>(head, item);
        lemma_graded_with_holds::<T>(by_grade::<T>(head), items.last(), item);
        lemma_push_contains(head, items.last());
        assert(items =~= head.push(items.last()));
        assert(head.push(items.last()).contains(item) <==> head.contains(item) || item
            == items.last());
    }
}

} // verus!
