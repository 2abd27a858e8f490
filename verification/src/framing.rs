//! Byte strings made of self-delimiting records: packing, reading back, and
//! the record framing of blocks and files.
use vstd::prelude::*;

use crate::error::GfError;
use crate::keyed::{Keyed, ordered};

verus! {

/// A keyed record with a self-delimiting byte form.
pub trait Framed: Keyed {
    /// Whether the byte form can hold this record.
    spec fn valid(self) -> bool;

    /// The byte form.
    spec fn packed(self) -> Seq<u8>;

    /// What stands at the front of a nonempty byte string: a record and its
    /// width, or why there is none.
    spec fn front(bytes: Seq<u8>) -> Result<(Self, nat), Seq<char>>;

    /// A packed record is read back, whatever follows it.
    proof fn front_of_packed(self, rest: Seq<u8>)
        requires
            self.valid(),
        ensures
            0 < self.packed().len() <= 64,
            Self::front(self.packed() + rest) == Ok::<(Self, nat), Seq<char>>(
                (self, self.packed().len()),
            ),
    ;

    /// A record that is read is the one whose byte form stands there.
    proof fn packed_of_front(bytes: Seq<u8>)
        requires
            bytes.len() > 0,
            Self::front(bytes) is Ok,
        ensures
            0 < Self::front(bytes)->Ok_0.1 <= bytes.len(),
            Self::front(bytes)->Ok_0.0.valid(),
            Self::front(bytes)->Ok_0.0.packed() == bytes.take(Self::front(bytes)->Ok_0.1 as int),
    ;

    /// Append the byte form.
    fn push(&self, out: &mut Vec<u8>)
        ensures
            final(out)@ == old(out)@ + self.packed(),
    ;

    /// Read the record at `offset` and its width.
    fn read_front(bytes: &[u8], offset: usize) -> (record: Result<(Self, usize), GfError>)
        requires
            offset < bytes@.len(),
        ensures
            match Self::front(bytes@.skip(offset as int)) {
                Ok((want, width)) => record matches Ok((item, length)) && item == want && length
                    == width,
                Err(message) => record matches Err(error) && error.is_storage(message),
            },
    ;

    /// The key as a number.
    fn key_value(&self) -> (key: u128)
        ensures
            key == self.key(),
    ;
}

/// The records a byte string starts with, in order, and what is wrong with
/// the first place that is no record (`None` where the records cover it).
pub open spec fn scan<T: Framed>(bytes: Seq<u8>) -> (Seq<T>, Option<Seq<char>>)
    decreases bytes.len(),
{
    if bytes.len() == 0 {
        (Seq::empty(), None)
    } else {
        match T::front(bytes) {
            Err(message) => (Seq::empty(), Some(message)),
            Ok((item, width)) => if 0 < width <= bytes.len() {
                let rest = scan::<T>(bytes.skip(width as int));
                (seq![item] + rest.0, rest.1)
            } else {
                (Seq::empty(), Some(Seq::empty()))
            },
        }
    }
}

/// The byte form of a sequence of records.
pub open spec fn pack<T: Framed>(items: Seq<T>) -> Seq<u8>
    decreases items.len(),
{
    if items.len() == 0 {
        Seq::empty()
    } else {
        items[0].packed() + pack(items.skip(1))
    }
}

/// Whether the byte form can hold every record.
pub open spec fn all_valid<T: Framed>(items: Seq<T>) -> bool {
    forall|i: int| 0 <= i < items.len() ==> (#[trigger] items[i]).valid()
}

/// What decoding a byte string gives: its records, or the first failure.
pub open spec fn decode_outcome<T: Framed>(bytes: Seq<u8>) -> Result<Seq<T>, Seq<char>> {
    match scan::<T>(bytes).1 {
        None => Ok(scan::<T>(bytes).0),
        Some(message) => Err(message),
    }
}

/// Decoding what was encoded gives back the records.
pub proof fn lemma_scan_packed<T: Framed>(items: Seq<T>)
    requires
        all_valid(items),
    ensures
        scan::<T>(pack(items)) == (items, None::<Seq<char>>),
    decreases items.len(),
{
    if items.len() > 0 {
        let first = items[0];
        let rest = items.skip(1);
        assert forall|i: int| 0 <= i < rest.len() implies (#[trigger] rest[i]).valid() by {
            assert(items[i + 1].valid());
        }
        lemma_scan_packed(rest);
        first.front_of_packed(pack(rest));
        assert(pack(items).skip(first.packed().len() as int) =~= pack(rest));
        assert(seq![first] + rest =~= items);
    } else {
        assert(items =~= Seq::<T>::empty());
    }
}

/// A byte string that records cover is the byte form of those records.
pub proof fn lemma_pack_scanned<T: Framed>(bytes: Seq<u8>)
    ensures
        all_valid(scan::<T>(bytes).0),
        scan::<T>(bytes).1 is None ==> pack(scan::<T>(bytes).0) == bytes,
    decreases bytes.len(),
{
    if bytes.len() > 0 {
        if T::front(bytes) is Ok {
            T::packed_of_front(bytes);
            let width = T::front(bytes)->Ok_0.1 as int;
            let rest = bytes.skip(width);
            lemma_pack_scanned::<T>(rest);
            let all = scan::<T>(bytes).0;
            assert(all.skip(1) =~= scan::<T>(rest).0);
            assert forall|i: int| 0 <= i < all.len() implies (#[trigger] all[i]).valid() by {
                if i > 0 {
                    assert(scan::<T>(rest).0[i - 1].valid());
                }
            }
            if scan::<T>(bytes).1 is None {
                assert(bytes.take(width) + rest =~= bytes);
            }
        }
    } else {
        assert(bytes =~= pack(scan::<T>(bytes).0));
    }
}

/// The byte form of two sequences in a row is that of one after the other.
pub proof fn lemma_pack_append<T: Framed>(left: Seq<T>, right: Seq<T>)
    ensures
        pack(left + right) == pack(left) + pack(right),
    decreases left.len(),
{
    if left.len() == 0 {
        assert(left + right =~= right);
        assert(pack(left) + pack(right) =~= pack(right));
    } else {
        lemma_pack_append(left.skip(1), right);
        assert((left + right).skip(1) =~= left.skip(1) + right);
        assert(pack(left + right) =~= pack(left) + pack(right));
    }
}

/// One more record adds its byte form at the end.
pub proof fn lemma_pack_push<T: Framed>(left: Seq<T>, last: T)
    ensures
        pack(left.push(last)) == pack(left) + last.packed(),
{
    lemma_pack_append(left, seq![last]);
    assert(left + seq![last] =~= left.push(last));
    assert(seq![last].skip(1) =~= Seq::<T>::empty());
    assert(pack(Seq::<T>::empty()) =~= Seq::<u8>::empty());
    assert(pack(seq![last]) =~= last.packed());
}

/// The records from `i` to `j` stand in the bytes between their boundaries.
pub proof fn lemma_pack_range<T: Framed>(items: Seq<T>, i: int, j: int)
    requires
        0 <= i <= j <= items.len(),
    ensures
        pack(items.take(i)).len() <= pack(items.take(j)).len() <= pack(items).len(),
        pack(items).subrange(
            pack(items.take(i)).len() as int,
            pack(items.take(j)).len() as int,
        ) == pack(items.subrange(i, j)),
{
    let a = items.take(i);
    let b = items.subrange(i, j);
    let c = items.skip(j);
    lemma_pack_append(a, b);
    lemma_pack_append(a + b, c);
    assert(a + b =~= items.take(j));
    assert(a + b + c =~= items);
    assert(pack(items).subrange(pack(a).len() as int, pack(a + b).len() as int) =~= pack(b));
}

/// A nonempty sequence of valid records has a nonempty byte form.
pub proof fn lemma_pack_positive<T: Framed>(items: Seq<T>)
    requires
        all_valid(items),
    ensures
        pack(items).len() >= items.len(),
    decreases items.len(),
{
    if items.len() > 0 {
        let rest = items.skip(1);
        assert forall|i: int| 0 <= i < rest.len() implies (#[trigger] rest[i]).valid() by {
            assert(items[i + 1].valid());
        }
        lemma_pack_positive(rest);
        items[0].front_of_packed(Seq::empty());
    }
}

/// Decode a whole byte string.
pub fn decode<T: Framed>(bytes: &[u8]) -> (items: Result<Vec<T>, GfError>)
    ensures
        match decode_outcome::<T>(bytes@) {
            Ok(want) => items matches Ok(items) && items@ == want,
            Err(message) => items matches Err(error) && error.is_storage(message),
        },
{
    let mut out: Vec<T> = Vec::new();
    let mut offset: usize = 0;
    assert(bytes@.skip(0) =~= bytes@);
    assert(out@ + scan::<T>(bytes@).0 =~= scan::<T>(bytes@).0);
    while offset < bytes.len()
        invariant
            offset <= bytes.len(),
            scan::<T>(bytes@).0 == out@ + scan::<T>(bytes@.skip(offset as int)).0,
            scan::<T>(bytes@).1 == scan::<T>(bytes@.skip(offset as int)).1,
        decreases bytes.len() - offset,
    {
        let ghost rest = bytes@.skip(offset as int);
        match T::read_front(bytes, offset) {
            Ok((item, width)) => {
                proof {
                    T::packed_of_front(rest);
                    assert(rest.skip(width as int) =~= bytes@.skip(offset + width));
                    assert(out@ + scan::<T>(rest).0 =~= out@.push(item) + scan::<T>(
                        bytes@.skip(offset + width),
                    ).0);
                }
                out.push(item);
                offset = offset + width;
            },
            Err(error) => {
                return Err(error);
            },
        }
    }
    assert(bytes@.skip(offset as int) =~= Seq::<u8>::empty());
    assert(out@ + Seq::<T>::empty() =~= out@);
    Ok(out)
}

/// Decode the records a byte string starts with, and say whether bytes are
/// left that are no record.
pub fn decode_front<T: Framed>(bytes: &[u8]) -> (read: (Vec<T>, bool))
    ensures
        read.0@ == scan::<T>(bytes@).0,
        read.1 == (scan::<T>(bytes@).1 is Some),
{
    let mut out: Vec<T> = Vec::new();
    let mut offset: usize = 0;
    assert(bytes@.skip(0) =~= bytes@);
    assert(out@ + scan::<T>(bytes@).0 =~= scan::<T>(bytes@).0);
    while offset < bytes.len()
        invariant
            offset <= bytes.len(),
            scan::<T>(bytes@).0 == out@ + scan::<T>(bytes@.skip(offset as int)).0,
            scan::<T>(bytes@).1 == scan::<T>(bytes@.skip(offset as int)).1,
        decreases bytes.len() - offset,
    {
        let ghost rest = bytes@.skip(offset as int);
        match T::read_front(bytes, offset) {
            Ok((item, width)) => {
                proof {
                    T::packed_of_front(rest);
                    assert(rest.skip(width as int) =~= bytes@.skip(offset + width));
                    assert(out@ + scan::<T>(rest).0 =~= out@.push(item) + scan::<T>(
                        bytes@.skip(offset + width),
                    ).0);
                }
                out.push(item);
                offset = offset + width;
            },
            Err(_) => {
                assert(out@ + Seq::<T>::empty() =~= out@);
                return (out, true);
            },
        }
    }
    assert(bytes@.skip(offset as int) =~= Seq::<u8>::empty());
    assert(out@ + Seq::<T>::empty() =~= out@);
    (out, false)
}

/// Encode a sequence of records.
pub fn encode<T: Framed>(items: &Vec<T>) -> (bytes: Vec<u8>)
    ensures
        bytes@ == pack(items@),
{
    let mut bytes: Vec<u8> = Vec::new();
    let mut i: usize = 0;
    while i < items.len()
        invariant
            i <= items@.len(),
            bytes@ == pack(items@.take(i as int)),
        decreases items.len() - i,
    {
        items[i].push(&mut bytes);
        proof {
            lemma_pack_push(items@.take(i as int), items@[i as int]);
            assert(items@.take(i + 1) =~= items@.take(i as int).push(items@[i as int]));
        }
        i = i + 1;
    }
    assert(items@.take(items@.len() as int) =~= items@);
    bytes
}

/// The position of a key in an ordered sequence.
pub fn find_key<T: Framed>(items: &Vec<T>, key: u128) -> (at: Option<usize>)
    requires
        ordered(items@),
    ensures
        match at {
            Some(at) => at < items@.len() && items@[at as int].key() == key,
            None => forall|i: int| 0 <= i < items@.len() ==> (#[trigger] items@[i]).key() != key,
        },
{
    let mut low: usize = 0;
    let mut high: usize = items.len();
    while low < high
        invariant
            low <= high <= items@.len(),
            ordered(items@),
            forall|i: int| 0 <= i < low ==> (#[trigger] items@[i]).key() < key,
            forall|i: int| high <= i < items@.len() ==> (#[trigger] items@[i]).key() > key,
        decreases high - low,
    {
        let middle: usize = low + (high - low) / 2;
        let value: u128 = items[middle].key_value();
        if value == key {
            return Some(middle);
        }
        if value < key {
            assert forall|i: int| 0 <= i < middle + 1 implies (#[trigger] items@[i]).key() < key by {
                if i < middle {
                    assert(items@[i].key() < items@[middle as int].key());
                }
            }
            low = middle + 1;
        } else {
            assert forall|i: int| middle <= i < items@.len() implies (#[trigger] items@[i]).key()
                > key by {
                if i > middle {
                    assert(items@[middle as int].key() < items@[i].key());
                }
            }
            high = middle;
        }
    }
    None
}

} // verus!
