//! Sequences of keyed records: order by key, sorting and merging.
use vstd::prelude::*;
use vstd::seq_lib::*;

verus! {

/// A small record with an integer key.
pub trait Keyed: Copy {
    /// The key.
    spec fn key(self) -> int;

    /// Whether this record's key is smaller.
    fn before(&self, other: &Self) -> (less: bool)
        ensures
            less == (self.key() < other.key()),
    ;
}

/// Keys strictly increase.
pub open spec fn ordered<T: Keyed>(items: Seq<T>) -> bool {
    forall|i: int, j: int|
        0 <= i < j < items.len() ==> (#[trigger] items[i]).key() < (#[trigger] items[j]).key()
}

/// Keys never decrease.
pub open spec fn sorted<T: Keyed>(items: Seq<T>) -> bool {
    forall|i: int, j: int|
        0 <= i < j < items.len() ==> (#[trigger] items[i]).key() <= (#[trigger] items[j]).key()
}

/// Some record has this key.
pub open spec fn has_key<T: Keyed>(items: Seq<T>, key: int) -> bool {
    exists|i: int| 0 <= i < items.len() && (#[trigger] items[i]).key() == key
}

/// Both sequences have a record with one key.
pub open spec fn share_key<T: Keyed>(left: Seq<T>, right: Seq<T>) -> bool {
    exists|i: int| 0 <= i < left.len() && has_key(right, (#[trigger] left[i]).key())
}

/// `out` holds the records of both sequences and nothing else.
pub open spec fn is_union<T>(out: Seq<T>, left: Seq<T>, right: Seq<T>) -> bool {
    forall|item: T| #[trigger]
        out.contains(item) <==> left.contains(item) || right.contains(item)
}

/// Both sequences hold the same records.
pub open spec fn same_items<T>(left: Seq<T>, right: Seq<T>) -> bool {
    forall|item: T|
        #![trigger left.contains(item)]
        #![trigger right.contains(item)]
        left.contains(item) == right.contains(item)
}

/// `out` holds the newer records, and the older ones whose key is not among
/// the newer keys.
pub open spec fn is_overlay<T: Keyed>(out: Seq<T>, older: Seq<T>, newer: Seq<T>) -> bool {
    forall|item: T| #[trigger]
        out.contains(item) <==> newer.contains(item) || (older.contains(item) && !has_key(
            newer,
            item.key(),
        ))
}

/// A pushed sequence holds what it held, and the new record.
pub proof fn lemma_push_contains<T>(items: Seq<T>, last: T)
    ensures
        forall|item: T| #[trigger]
            items.push(last).contains(item) <==> items.contains(item) || item == last,
{
    let pushed = items.push(last);
    assert forall|item: T| #[trigger]
        pushed.contains(item) <==> items.contains(item) || item == last by {
        if items.contains(item) {
            let i = choose|i: int| 0 <= i < items.len() && items[i] == item;
            assert(pushed[i] == item);
        }
        if item == last {
            assert(pushed[items.len() as int] == item);
        }
        if pushed.contains(item) {
            let i = choose|i: int| 0 <= i < pushed.len() && pushed[i] == item;
            if i < items.len() {
                assert(items[i] == item);
            }
        }
    }
}

/// An ordered sequence is determined by what it holds.
pub proof fn lemma_ordered_unique<T: Keyed>(left: Seq<T>, right: Seq<T>)
    requires
        ordered(left),
        ordered(right),
        same_items(left, right),
    ensures
        left == right,
    decreases left.len(),
{
    if left.len() == 0 {
        if right.len() > 0 {
            assert(right.contains(right[0]));
            assert(left.contains(right[0]));
        }
        assert(left =~= right);
    } else {
        assert(left.contains(left.last()));
        assert(right.contains(left.last()));
        assert(right.contains(right.last()));
        assert(left.contains(right.last()));
        let j = choose|j: int| 0 <= j < right.len() && right[j] == left.last();
        let i = choose|i: int| 0 <= i < left.len() && left[i] == right.last();
        assert(left.last() == right.last()) by {
            if j < right.len() - 1 && i < left.len() - 1 {
                assert(right[j].key() < right[right.len() - 1].key());
                assert(left[i].key() < left[left.len() - 1].key());
            }
        }
        let l = left.drop_last();
        let r = right.drop_last();
        assert forall|item: T| l.contains(item) == r.contains(item) by {
            if l.contains(item) {
                let k = choose|k: int| 0 <= k < l.len() && l[k] == item;
                assert(left[k] == item);
                assert(left.contains(item));
                let m = choose|m: int| 0 <= m < right.len() && right[m] == item;
                assert(left[k].key() < left[left.len() - 1].key());
                assert(m < right.len() - 1);
                assert(r[m] == item);
            }
            if r.contains(item) {
                let k = choose|k: int| 0 <= k < r.len() && r[k] == item;
                assert(right[k] == item);
                assert(right.contains(item));
                let m = choose|m: int| 0 <= m < left.len() && left[m] == item;
                assert(right[k].key() < right[right.len() - 1].key());
                assert(m < left.len() - 1);
                assert(l[m] == item);
            }
        }
        assert(same_items(l, r));
        lemma_ordered_unique(l, r);
        assert(left =~= l.push(left.last()));
        assert(right =~= r.push(right.last()));
    }
}

/// Merge two ordered sequences, the newer one winning where both have a key.
pub fn merge_newest<T: Keyed>(older: &Vec<T>, newer: &Vec<T>) -> (out: Vec<T>)
    requires
        ordered(older@),
        ordered(newer@),
    ensures
        ordered(out@),
        is_overlay(out@, older@, newer@),
{
    let mut out: Vec<T> = Vec::new();
    let mut i: usize = 0;
    let mut j: usize = 0;
    while i < older.len() || j < newer.len()
        invariant
            i <= older@.len(),
            j <= newer@.len(),
            ordered(older@),
            ordered(newer@),
            ordered(out@),
            forall|k: int, m: int|
                0 <= k < out@.len() && i <= m < older@.len() ==> (#[trigger] out@[k]).key() < (
                #[trigger] older@[m]).key(),
            forall|k: int, m: int|
                0 <= k < out@.len() && j <= m < newer@.len() ==> (#[trigger] out@[k]).key() < (
                #[trigger] newer@[m]).key(),
            forall|m: int| 0 <= m < j ==> out@.contains(#[trigger] newer@[m]),
            forall|m: int|
                0 <= m < i ==> out@.contains(#[trigger] older@[m]) || has_key(
                    newer@,
                    older@[m].key(),
                ),
            forall|k: int|
                0 <= k < out@.len() ==> newer@.contains(#[trigger] out@[k]) || (older@.contains(
                    out@[k],
                ) && !has_key(newer@, out@[k].key())),
            forall|m: int, n: int|
                0 <= m < j && i <= n < older@.len() ==> (#[trigger] newer@[m]).key() < (#[trigger]
                older@[n]).key(),
            forall|m: int, n: int|
                0 <= m < i && j <= n < newer@.len() ==> (#[trigger] older@[m]).key() < (#[trigger]
                newer@[n]).key(),
        decreases older.len() - i + newer.len() - j,
    {
        let ghost before = out@;
        if j == newer.len() || (i < older.len() && older[i].before(&newer[j])) {
            proof {
                let item = older@[i as int];
                assert(!has_key(newer@, item.key())) by {
                    if has_key(newer@, item.key()) {
                        let n = choose|n: int|
                            0 <= n < newer@.len() && (#[trigger] newer@[n]).key() == item.key();
                        if n < j {
                            assert(newer@[n].key() < older@[i as int].key());
                        } else {
                            assert(newer@[j as int].key() <= newer@[n].key());
                        }
                    }
                }
                assert(older@.contains(item));
                lemma_push_contains(out@, item);
            }
            out.push(older[i]);
            i = i + 1;
        } else {
            let same: bool = i < older.len() && !newer[j].before(&older[i]);
            proof {
                let item = newer@[j as int];
                assert(newer@.contains(item));
                lemma_push_contains(out@, item);
                if same {
                    assert(older@[i as int].key() == item.key());
                    assert(has_key(newer@, older@[i as int].key()));
                }
            }
            out.push(newer[j]);
            j = j + 1;
            if same {
                i = i + 1;
            }
        }
    }
    assert forall|item: T| #[trigger]
        out@.contains(item) <==> newer@.contains(item) || (older@.contains(item) && !has_key(
            newer@,
            item.key(),
        )) by {
        if newer@.contains(item) {
            let m = choose|m: int| 0 <= m < newer@.len() && newer@[m] == item;
            assert(out@.contains(newer@[m]));
        }
        if older@.contains(item) && !has_key(newer@, item.key()) {
            let m = choose|m: int| 0 <= m < older@.len() && older@[m] == item;
            assert(out@.contains(older@[m]));
        }
    }
    out
}

/// Merge two ordered sequences that share no key; `None` where they do.
pub fn merge_disjoint<T: Keyed>(left: &Vec<T>, right: &Vec<T>) -> (out: Option<Vec<T>>)
    requires
        ordered(left@),
        ordered(right@),
    ensures
        match out {
            Some(out) => !share_key(left@, right@) && ordered(out@) && is_union(
                out@,
                left@,
                right@,
            ),
            None => share_key(left@, right@),
        },
{
    let mut i: usize = 0;
    let mut j: usize = 0;
    while i < left.len() && j < right.len()
        invariant
            i <= left@.len(),
            j <= right@.len(),
            ordered(left@),
            ordered(right@),
            forall|m: int| 0 <= m < i ==> !has_key(right@, (#[trigger] left@[m]).key()),
            forall|m: int, n: int|
                0 <= m < j && i <= n < left@.len() ==> (#[trigger] right@[m]).key() < (#[trigger]
                left@[n]).key(),
        decreases left.len() - i + right.len() - j,
    {
        if left[i].before(&right[j]) {
            assert(!has_key(right@, left@[i as int].key())) by {
                if has_key(right@, left@[i as int].key()) {
                    let n = choose|n: int|
                        0 <= n < right@.len() && (#[trigger] right@[n]).key()
                            == left@[i as int].key();
                    if n < j {
                        assert(right@[n].key() < left@[i as int].key());
                    } else {
                        assert(right@[j as int].key() <= right@[n].key());
                    }
                }
            }
            i = i + 1;
        } else if right[j].before(&left[i]) {
            j = j + 1;
        } else {
            assert(has_key(right@, left@[i as int].key()));
            return None;
        }
    }
    assert(!share_key(left@, right@)) by {
        if share_key(left@, right@) {
            let m = choose|m: int|
                0 <= m < left@.len() && has_key(right@, (#[trigger] left@[m]).key());
            if m >= i {
                let n = choose|n: int|
                    0 <= n < right@.len() && (#[trigger] right@[n]).key() == left@[m].key();
                assert(right@[n].key() < left@[m].key());
            }
        }
    }
    let out: Vec<T> = merge_newest(left, right);
    assert forall|item: T| #[trigger]
        out@.contains(item) <==> left@.contains(item) || right@.contains(item) by {
        if left@.contains(item) {
            let m = choose|m: int| 0 <= m < left@.len() && left@[m] == item;
            assert(!has_key(right@, left@[m].key()));
        }
    }
    Some(out)
}

/// Merge two sorted sequences, keeping every record of both.
fn merge_sorted<T: Keyed>(left: &Vec<T>, right: &Vec<T>) -> (out: Vec<T>)
    requires
        sorted(left@),
        sorted(right@),
    ensures
        sorted(out@),
        out@.to_multiset() == left@.to_multiset().add(right@.to_multiset()),
{
    let mut out: Vec<T> = Vec::new();
    let mut i: usize = 0;
    let mut j: usize = 0;
    assert(left@.take(0) =~= Seq::<T>::empty());
    assert(right@.take(0) =~= Seq::<T>::empty());
    proof {
        broadcast use group_to_multiset_ensures;

        assert(out@.to_multiset() =~= left@.take(0).to_multiset().add(
            right@.take(0).to_multiset(),
        ));
    }
    while i < left.len() || j < right.len()
        invariant
            i <= left@.len(),
            j <= right@.len(),
            sorted(left@),
            sorted(right@),
            sorted(out@),
            forall|k: int, m: int|
                0 <= k < out@.len() && i <= m < left@.len() ==> (#[trigger] out@[k]).key() <= (
                #[trigger] left@[m]).key(),
            forall|k: int, m: int|
                0 <= k < out@.len() && j <= m < right@.len() ==> (#[trigger] out@[k]).key() <= (
                #[trigger] right@[m]).key(),
            out@.to_multiset() == left@.take(i as int).to_multiset().add(
                right@.take(j as int).to_multiset(),
            ),
        decreases left.len() - i + right.len() - j,
    {
        if j == right.len() || (i < left.len() && !right[j].before(&left[i])) {
            proof {
                to_multiset_build(left@.take(i as int), left@[i as int]);
                to_multiset_build(out@, left@[i as int]);
                assert(left@.take(i + 1) =~= left@.take(i as int).push(left@[i as int]));
                assert(out@.push(left@[i as int]).to_multiset() =~= left@.take(
                    i + 1,
                ).to_multiset().add(right@.take(j as int).to_multiset()));
            }
            out.push(left[i]);
            i = i + 1;
        } else {
            proof {
                to_multiset_build(right@.take(j as int), right@[j as int]);
                to_multiset_build(out@, right@[j as int]);
                assert(right@.take(j + 1) =~= right@.take(j as int).push(right@[j as int]));
                assert(out@.push(right@[j as int]).to_multiset() =~= left@.take(
                    i as int,
                ).to_multiset().add(right@.take(j + 1).to_multiset()));
            }
            out.push(right[j]);
            j = j + 1;
        }
    }
    assert(left@.take(i as int) =~= left@);
    assert(right@.take(j as int) =~= right@);
    out
}

fn sort_range<T: Keyed>(items: &Vec<T>, from: usize, to: usize) -> (out: Vec<T>)
    requires
        from <= to <= items@.len(),
    ensures
        sorted(out@),
        out@.to_multiset() == items@.subrange(from as int, to as int).to_multiset(),
    decreases to - from,
{
    if to - from <= 1 {
        let mut out: Vec<T> = Vec::new();
        if from < to {
            out.push(items[from]);
        }
        assert(out@ =~= items@.subrange(from as int, to as int));
        out
    } else {
        let middle: usize = from + (to - from) / 2;
        let left: Vec<T> = sort_range(items, from, middle);
        let right: Vec<T> = sort_range(items, middle, to);
        proof {
            let l = items@.subrange(from as int, middle as int);
            let r = items@.subrange(middle as int, to as int);
            assert(l + r =~= items@.subrange(from as int, to as int));
            lemma_multiset_commutative(l, r);
        }
        merge_sorted(&left, &right)
    }
}

/// Sort by key, keeping every record.
pub fn sort_by_key<T: Keyed>(items: &Vec<T>) -> (out: Vec<T>)
    ensures
        sorted(out@),
        out@.to_multiset() == items@.to_multiset(),
{
    assert(items@.subrange(0, items@.len() as int) =~= items@);
    sort_range(items, 0, items.len())
}

/// Whether no key repeats in a sorted sequence.
pub fn is_ordered<T: Keyed>(items: &Vec<T>) -> (yes: bool)
    requires
        sorted(items@),
    ensures
        yes == ordered(items@),
{
    let mut i: usize = 1;
    while i < items.len()
        invariant
            1 <= i,
            i <= items@.len() || items@.len() == 0,
            sorted(items@),
            forall|m: int| 1 <= m < i && m < items@.len() ==> (#[trigger] items@[m - 1]).key()
                < items@[m].key(),
        decreases items.len() - i,
    {
        if !items[i - 1].before(&items[i]) {
            return false;
        }
        i = i + 1;
    }
    assert forall|a: int, b: int| 0 <= a < b < items@.len() implies (#[trigger] items@[a]).key() < (
    #[trigger] items@[b]).key() by {
        assert(items@[b - 1].key() < items@[b].key());
        if a < b - 1 {
            assert(items@[a].key() <= items@[b - 1].key());
        }
    }
    true
}

/// Whether keys strictly increase.
pub fn check_ordered<T: Keyed>(items: &Vec<T>) -> (yes: bool)
    ensures
        yes == ordered(items@),
{
    let mut i: usize = 1;
    while i < items.len()
        invariant
            1 <= i,
            forall|a: int, b: int|
                0 <= a < b < i && b < items@.len() ==> (#[trigger] items@[a]).key() < (#[trigger]
                items@[b]).key(),
        decreases items.len() - i,
    {
        if !items[i - 1].before(&items[i]) {
            return false;
        }
        assert forall|a: int, b: int|
            0 <= a < b < i + 1 && b < items@.len() implies (#[trigger] items@[a]).key() < (
        #[trigger] items@[b]).key() by {
            if b == i && a < i - 1 {
                assert(items@[a].key() < items@[i - 1].key());
            }
        }
        i = i + 1;
    }
    true
}

/// The same records in another order have the same keys.
pub proof fn lemma_multiset_contains<T>(left: Seq<T>, right: Seq<T>)
    requires
        left.to_multiset() == right.to_multiset(),
    ensures
        left.len() == right.len(),
        same_items(left, right),
{
    to_multiset_len(left);
    to_multiset_len(right);
    assert forall|item: T| left.contains(item) == right.contains(item) by {
        to_multiset_contains(left, item);
        to_multiset_contains(right, item);
        assert(left.contains(item) <==> left.to_multiset().count(item) > 0);
        assert(right.contains(item) <==> right.to_multiset().count(item) > 0);
    }
}

/// Ordered records with one more among them; a record with its key stays.
pub open spec fn with_item<T: Keyed>(items: Seq<T>, item: T) -> Seq<T>
    decreases items.len(),
{
    if items.len() == 0 || items.last().key() < item.key() {
        items.push(item)
    } else if items.last().key() == item.key() {
        items
    } else {
        with_item(items.drop_last(), item).push(items.last())
    }
}

/// Records in key order, the first of each key.
pub open spec fn key_order<T: Keyed>(items: Seq<T>) -> Seq<T>
    decreases items.len(),
{
    if items.len() == 0 {
        Seq::empty()
    } else {
        with_item(key_order(items.drop_last()), items.last())
    }
}

/// Whether records with one key are one record.
pub open spec fn key_determines<T: Keyed>(items: Seq<T>) -> bool {
    forall|i: int, j: int|
        0 <= i < items.len() && 0 <= j < items.len() && (#[trigger] items[i]).key() == (
        #[trigger] items[j]).key() ==> items[i] == items[j]
}

proof fn lemma_with_item<T: Keyed>(items: Seq<T>, item: T)
    requires
        ordered(items),
        forall|i: int| 0 <= i < items.len() && (#[trigger] items[i]).key() == item.key() ==> items[i]
            == item,
    ensures
        ordered(with_item(items, item)),
        forall|other: T| #[trigger]
            with_item(items, item).contains(other) <==> items.contains(other) || other == item,
    decreases items.len(),
{
    let out = with_item(items, item);
    if items.len() == 0 || items.last().key() < item.key() {
        lemma_push_contains(items, item);
        assert forall|i: int, j: int| 0 <= i < j < out.len() implies (#[trigger] out[i]).key() < (
        #[trigger] out[j]).key() by {
            if j == items.len() && i < items.len() - 1 {
                assert(items[i].key() < items[items.len() - 1].key());
            }
        }
    } else if items.last().key() == item.key() {
        assert(items[items.len() - 1] == item);
        assert(items.contains(item));
    } else {
        let head = items.drop_last();
        assert(ordered(head)) by {
            assert forall|i: int, j: int| 0 <= i < j < head.len() implies (
            #[trigger] head[i]).key() < (#[trigger] head[j]).key() by {
                assert(items[i].key() < items[j].key());
            }
        }
        assert forall|i: int|
            0 <= i < head.len() && (#[trigger] head[i]).key() == item.key() implies head[i]
            == item by {
            assert(items[i].key() == item.key());
        }
        lemma_with_item(head, item);
        let rest = with_item(head, item);
        lemma_push_contains(rest, items.last());
        lemma_push_contains(head, items.last());
        assert(items =~= head.push(items.last()));
        assert forall|i: int, j: int| 0 <= i < j < out.len() implies (#[trigger] out[i]).key() < (
        #[trigger] out[j]).key() by {
            if j < rest.len() {
                assert(rest[i].key() < rest[j].key());
            } else {
                assert(rest.contains(rest[i]));
                if rest[i] != item {
                    assert(head.contains(rest[i]));
                    let k = choose|k: int| 0 <= k < head.len() && head[k] == rest[i];
                    assert(items[k].key() < items[items.len() - 1].key());
                }
            }
        }
    }
}

/// Records in key order are ordered, and they are the same records where
/// records with one key are one record.
pub proof fn lemma_key_order<T: Keyed>(items: Seq<T>)
    requires
        key_determines(items),
    ensures
        ordered(key_order(items)),
        same_items(key_order(items), items),
    decreases items.len(),
{
    if items.len() > 0 {
        let head = items.drop_last();
        let last = items.last();
        assert(key_determines(head)) by {
            assert forall|i: int, j: int|
                0 <= i < head.len() && 0 <= j < head.len() && (#[trigger] head[i]).key() == (
                #[trigger] head[j]).key() implies head[i] == head[j] by {
                assert(items[i].key() == items[j].key());
            }
        }
        lemma_key_order(head);
        let before = key_order(head);
        assert forall|i: int|
            0 <= i < before.len() && (#[trigger] before[i]).key() == last.key() implies before[i]
            == last by {
            assert(before.contains(before[i]));
            assert(head.contains(before[i]));
            let k = choose|k: int| 0 <= k < head.len() && head[k] == before[i];
            assert(items[k].key() == items[items.len() - 1].key());
        }
        lemma_with_item(before, last);
        lemma_push_contains(head, last);
        assert(items =~= head.push(last));
        assert forall|item: T| key_order(items).contains(item) == items.contains(item) by {
            assert(before.contains(item) == head.contains(item));
        }
    } else {
        assert(key_order(items) =~= items);
    }
}

/// Ordered records that are the same records are those records in key order.
pub proof fn lemma_is_key_order<T: Keyed>(out: Seq<T>, items: Seq<T>)
    requires
        ordered(out),
        same_items(out, items),
        key_determines(items),
    ensures
        out == key_order(items),
{
    lemma_key_order(items);
    assert forall|item: T| out.contains(item) == key_order(items).contains(item) by {
        assert(out.contains(item) == items.contains(item));
        assert(key_order(items).contains(item) == items.contains(item));
    }
    assert(same_items(out, key_order(items)));
    lemma_ordered_unique(out, key_order(items));
}

} // verus!
