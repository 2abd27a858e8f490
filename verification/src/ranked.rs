//! Sorting of owned values by a total order, and the order of names.
use vstd::prelude::*;
use vstd::seq_lib::*;
use vstd::string::*;
use vstd::utf8::*;

verus! {

/// A value with a place in a total order.
pub trait Ranked: Sized {
    /// Whether this value may stand before the other.
    spec fn not_after(self, other: Self) -> bool;

    /// Of two values, one may stand before the other.
    proof fn total(left: Self, right: Self)
        ensures
            left.not_after(right) || right.not_after(left),
    ;

    /// The order is transitive.
    proof fn transitive(first: Self, second: Self, third: Self)
        requires
            first.not_after(second),
            second.not_after(third),
        ensures
            first.not_after(third),
    ;

    /// Whether this value may stand before the other.
    fn comes_first(&self, other: &Self) -> (yes: bool)
        ensures
            yes == self.not_after(*other),
    ;
}

/// Whether a sequence is in order.
pub open spec fn in_order<T: Ranked>(items: Seq<T>) -> bool {
    forall|i: int, j: int|
        0 <= i < j < items.len() ==> (#[trigger] items[i]).not_after(#[trigger] items[j])
}

/// Put values in order.
pub fn sort_ranked<T: Ranked>(items: Vec<T>) -> (sorted: Vec<T>)
    ensures
        in_order(sorted@),
        sorted@.to_multiset() == items@.to_multiset(),
{
    let ghost all = items@;
    let mut items: Vec<T> = items;
    let mut sorted: Vec<T> = Vec::new();
    proof {
        broadcast use group_to_multiset_ensures;

        assert(sorted@.to_multiset().add(items@.to_multiset()) =~= all.to_multiset());
    }
    while items.len() > 0
        invariant
            in_order(sorted@),
            sorted@.to_multiset().add(items@.to_multiset()) == all.to_multiset(),
        decreases items.len(),
    {
        let ghost left = items@;
        let ghost done = sorted@;
        match items.pop() {
            Some(item) => {
                let mut at: usize = 0;
                while at < sorted.len() && !item.comes_first(&sorted[at])
                    invariant
                        at <= sorted@.len(),
                        sorted@ == done,
                        forall|j: int| 0 <= j < at ==> !item.not_after(#[trigger] sorted@[j]),
                    decreases sorted.len() - at,
                {
                    at = at + 1;
                }
                proof {
                    assert forall|j: int| 0 <= j < at implies (
                    #[trigger] sorted@[j]).not_after(item) by {
                        T::total(sorted@[j], item);
                    }
                    assert forall|j: int| at <= j < sorted@.len() implies item.not_after(
                        #[trigger] sorted@[j],
                    ) by {
                        if j > at {
                            T::transitive(item, sorted@[at as int], sorted@[j]);
                        }
                    }
                    to_multiset_insert(sorted@, at as int, item);
                    assert(left =~= items@.push(item));
                    to_multiset_build(items@, item);
                }
                sorted.insert(at, item);
                proof {
                    let now = sorted@;
                    assert forall|i: int, j: int| 0 <= i < j < now.len() implies (
                    #[trigger] now[i]).not_after(#[trigger] now[j]) by {
                        let a = if i < at {
                            i
                        } else {
                            i - 1
                        };
                        let b = if j < at {
                            j
                        } else {
                            j - 1
                        };
                        if i != at && j != at {
                            assert(now[i] == done[a]);
                            assert(now[j] == done[b]);
                            assert(done[a].not_after(done[b]));
                        } else if i == at {
                            assert(now[j] == done[b]);
                        } else {
                            assert(now[i] == done[a]);
                        }
                    }
                    assert(now.to_multiset().add(items@.to_multiset()) =~= done.to_multiset().add(
                        left.to_multiset(),
                    ));
                }
            },
            None => {},
        }
    }
    proof {
        broadcast use group_to_multiset_ensures;

        assert(items@ =~= Seq::<T>::empty());
        assert(sorted@.to_multiset() =~= all.to_multiset());
    }
    sorted
}

/// Lexicographic order of byte strings, a prefix before what it starts.
pub open spec fn text_not_after(left: Seq<u8>, right: Seq<u8>) -> bool
    decreases left.len(),
{
    if left.len() == 0 {
        true
    } else if right.len() == 0 {
        false
    } else {
        left[0] < right[0] || (left[0] == right[0] && text_not_after(
            left.skip(1),
            right.skip(1),
        ))
    }
}

/// Of two texts one may stand before the other.
pub proof fn lemma_text_total(left: Seq<u8>, right: Seq<u8>)
    ensures
        text_not_after(left, right) || text_not_after(right, left),
    decreases left.len(),
{
    if left.len() > 0 && right.len() > 0 {
        lemma_text_total(left.skip(1), right.skip(1));
    }
}

/// A text before a second, which is before a third, is before the third.
pub proof fn lemma_text_transitive(first: Seq<u8>, second: Seq<u8>, third: Seq<u8>)
    requires
        text_not_after(first, second),
        text_not_after(second, third),
    ensures
        text_not_after(first, third),
    decreases first.len(),
{
    if first.len() > 0 && second.len() > 0 && third.len() > 0 && first[0] == second[0] && second[0]
        == third[0] {
        lemma_text_transitive(first.skip(1), second.skip(1), third.skip(1));
    }
}

/// Two texts that may each stand before the other are equal.
pub proof fn lemma_text_antisymmetric(left: Seq<u8>, right: Seq<u8>)
    requires
        text_not_after(left, right),
        text_not_after(right, left),
    ensures
        left == right,
    decreases left.len(),
{
    if left.len() > 0 && right.len() > 0 {
        lemma_text_antisymmetric(left.skip(1), right.skip(1));
        assert(left =~= seq![left[0]] + left.skip(1));
        assert(right =~= seq![right[0]] + right.skip(1));
    } else {
        assert(left =~= right);
    }
}

/// Whether `left` is lexicographically at most `right`.
pub fn text_first(left: &[u8], right: &[u8]) -> (yes: bool)
    ensures
        yes == text_not_after(left@, right@),
{
    let mut i: usize = 0;
    assert(left@.skip(0) =~= left@);
    assert(right@.skip(0) =~= right@);
    while i < left.len() && i < right.len()
        invariant
            i <= left@.len(),
            i <= right@.len(),
            text_not_after(left@, right@) == text_not_after(
                left@.skip(i as int),
                right@.skip(i as int),
            ),
        decreases left.len() - i,
    {
        proof {
            assert(left@.skip(i as int).skip(1) =~= left@.skip(i + 1));
            assert(right@.skip(i as int).skip(1) =~= right@.skip(i + 1));
        }
        if left[i] < right[i] {
            return true;
        }
        if left[i] > right[i] {
            return false;
        }
        i = i + 1;
    }
    i == left.len()
}

impl Ranked for String {
    open spec fn not_after(self, other: Self) -> bool {
        text_not_after(encode_utf8(self@), encode_utf8(other@))
    }

    proof fn total(left: Self, right: Self) {
        lemma_text_total(encode_utf8(left@), encode_utf8(right@));
    }

    proof fn transitive(first: Self, second: Self, third: Self) {
        lemma_text_transitive(encode_utf8(first@), encode_utf8(second@), encode_utf8(third@));
    }

    fn comes_first(&self, other: &Self) -> (yes: bool) {
        text_first(self.as_str().as_bytes(), other.as_str().as_bytes())
    }
}

/// The same values in another order have the same images.
pub proof fn lemma_multiset_images<T, U>(left: Seq<T>, right: Seq<T>, image: spec_fn(T) -> U)
    requires
        left.to_multiset() == right.to_multiset(),
    ensures
        left.len() == right.len(),
        Seq::new(left.len(), |i: int| image(left[i])).to_multiset() == Seq::new(
            right.len(),
            |i: int| image(right[i]),
        ).to_multiset(),
    decreases left.len(),
{
    to_multiset_len(left);
    to_multiset_len(right);
    let l = Seq::new(left.len(), |i: int| image(left[i]));
    let r = Seq::new(right.len(), |i: int| image(right[i]));
    if left.len() == 0 {
        assert(l =~= r);
    } else {
        let item = left.last();
        to_multiset_contains(left, item);
        to_multiset_contains(right, item);
        assert(left.contains(item));
        let j = choose|j: int| 0 <= j < right.len() && right[j] == item;
        let left_rest = left.drop_last();
        let right_rest = right.remove(j);
        to_multiset_build(left_rest, item);
        assert(left_rest.push(item) =~= left);
        to_multiset_remove(right, j);
        assert(left_rest.to_multiset() =~= right_rest.to_multiset());
        lemma_multiset_images(left_rest, right_rest, image);
        let lr = Seq::new(left_rest.len(), |i: int| image(left_rest[i]));
        let rr = Seq::new(right_rest.len(), |i: int| image(right_rest[i]));
        assert(l =~= lr.push(image(item)));
        to_multiset_build(lr, image(item));
        assert(r =~= rr.insert(j, image(item)));
        to_multiset_insert(rr, j, image(item));
    }
}

} // verus!
