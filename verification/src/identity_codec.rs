//! Packed framing of identity records. A record is a UUID, a kind and a
//! surrogate; live edges omit their surrogate, which is zero by definition.
use vstd::prelude::*;
use vstd::slice::*;

use crate::bytes::{
    be_bytes, be_value, lemma_be_bytes_of_value, lemma_be_value_bound, lemma_be_value_of_bytes,
    lemma_pow256_words, push_be, read_be, read_be_u64,
};
use crate::error::{GfError, storage_err};
use crate::framing::{Framed, scan};
use crate::keyed::{Keyed, ordered};

verus! {

/// Width of a record with a surrogate.
pub const WIDTH: usize = 25;

/// Width of a live-edge record.
pub const EDGE_WIDTH: usize = 17;

/// One unpacked record: UUID, kind and surrogate, zero-filled.
pub type Record = [u8; WIDTH];

/// Kind of a live node.
pub const LIVE_NODE: u8 = 0;

/// Kind of a live edge.
pub const LIVE_EDGE: u8 = 1;

/// Kind of a deleted node.
pub const DELETED_NODE: u8 = 2;

/// Kind of a deleted edge.
pub const DELETED_EDGE: u8 = 3;

/// An identity: a UUID by its big-endian value, its kind and its surrogate.
#[derive(Clone, Copy, Debug, PartialEq, Eq, Structural)]
pub struct Identity {
    /// UUID, most significant byte first.
    pub uuid: u128,
    /// Live or deleted, node or edge.
    pub kind: u8,
    /// Node surrogate; zero for a live edge.
    pub surrogate: u64,
}

/// Packed width of a record of this kind; `None` for an unknown kind.
pub open spec fn packed_width(kind: u8) -> Option<nat> {
    if kind == 1 {
        Some(17)
    } else if kind == 0 || kind == 2 || kind == 3 {
        Some(25)
    } else {
        None
    }
}

/// The identity at the front of a byte string.
pub open spec fn front_identity(bytes: Seq<u8>) -> Identity {
    Identity {
        uuid: be_value(bytes.subrange(0, 16)) as u128,
        kind: bytes[16],
        surrogate: if bytes[16] == 1 {
            0
        } else {
            be_value(bytes.subrange(17, 25)) as u64
        },
    }
}

/// Reported for a kind that no record has.
pub open spec fn kind_message() -> Seq<char> {
    "identity record kind is invalid"@
}

/// Reported for a record that is cut off.
pub open spec fn partial_message() -> Seq<char> {
    "partial identity record in authenticated block"@
}

impl Identity {
    /// Whether the codec can hold this identity.
    pub open spec fn encodable(self) -> bool {
        packed_width(self.kind) is Some && (self.kind == 1 ==> self.surrogate == 0)
    }

    /// The packed bytes of this identity.
    pub open spec fn packed_bytes(self) -> Seq<u8> {
        be_bytes(self.uuid as nat, 16) + seq![self.kind] + if self.kind == 1 {
            Seq::<u8>::empty()
        } else {
            be_bytes(self.surrogate as nat, 8)
        }
    }

    /// Whether this is a live node or a live edge.
    pub open spec fn live(self) -> bool {
        self.kind <= 1
    }
}

proof fn lemma_packed(identity: Identity)
    requires
        identity.valid(),
    ensures
        identity.packed().len() == packed_width(identity.kind)->0,
        identity.packed().subrange(0, 16) == be_bytes(identity.uuid as nat, 16),
        identity.packed()[16] == identity.kind,
        front_identity(identity.packed()) == identity,
{
    lemma_pow256_words();
    lemma_be_value_of_bytes(identity.uuid as nat, 16);
    lemma_be_value_of_bytes(identity.surrogate as nat, 8);
    let bytes = identity.packed();
    assert(bytes.subrange(0, 16) =~= be_bytes(identity.uuid as nat, 16));
    if identity.kind != 1 {
        assert(bytes.subrange(17, 25) =~= be_bytes(identity.surrogate as nat, 8));
    }
}

proof fn lemma_front(bytes: Seq<u8>)
    requires
        bytes.len() >= 17,
        packed_width(bytes[16]) matches Some(width) && width <= bytes.len(),
    ensures
        front_identity(bytes).valid(),
        front_identity(bytes).packed() == bytes.take(packed_width(bytes[16])->0 as int),
        front_identity(bytes).uuid == be_value(bytes.subrange(0, 16)),
{
    lemma_pow256_words();
    lemma_be_value_bound(bytes.subrange(0, 16));
    lemma_be_bytes_of_value(bytes.subrange(0, 16));
    let identity = front_identity(bytes);
    let width = packed_width(bytes[16])->0 as int;
    if bytes[16] != 1 {
        lemma_be_value_bound(bytes.subrange(17, 25));
        lemma_be_bytes_of_value(bytes.subrange(17, 25));
    }
    assert(identity.packed() =~= bytes.take(width));
}

fn width(kind: u8) -> (width: Result<usize, GfError>)
    ensures
        match width {
            Ok(width) => packed_width(kind) == Some(width as nat),
            Err(error) => packed_width(kind) is None && error.is_storage(kind_message()),
        },
{
    if kind == 1 {
        Ok(EDGE_WIDTH)
    } else if kind == 0 || kind == 2 || kind == 3 {
        Ok(WIDTH)
    } else {
        Err(storage_err("identity record kind is invalid"))
    }
}

/// The packed prefix of an unpacked record.
pub fn encoded(record: &Record) -> (packed: Result<&[u8], GfError>)
    ensures
        match packed {
            Ok(packed) => {
                &&& packed_width(record@[16]) is Some
                &&& record@[16] == 1 ==> forall|i: int| 17 <= i < 25 ==> record@[i] == 0
                &&& packed@ == record@.take(packed_width(record@[16])->0 as int)
            },
            Err(error) => {
                ||| packed_width(record@[16]) is None && error.is_storage(kind_message())
                ||| record@[16] == 1 && (exists|i: int| 17 <= i < 25 && record@[i] != 0)
                    && error.is_storage("live edge membership surrogate must be zero"@)
            },
        },
{
    let length: usize = match width(record[16]) {
        Ok(length) => length,
        Err(error) => {
            return Err(error);
        },
    };
    if length == EDGE_WIDTH {
        let mut i: usize = EDGE_WIDTH;
        while i < WIDTH
            invariant
                17 <= i <= 25,
                record@[16] == 1,
                forall|j: int| 17 <= j < i ==> record@[j] == 0,
            decreases 25 - i,
        {
            if record[i] != 0 {
                return Err(storage_err("live edge membership surrogate must be zero"));
            }
            i = i + 1;
        }
    }
    assert(record@.subrange(0, length as int) =~= record@.take(length as int));
    Ok(slice_subrange(record.as_slice(), 0, length))
}

/// What reading one record off the front of a byte string gives: nothing at
/// its end, the zero-filled record, or the failure.
pub open spec fn read_outcome(bytes: Seq<u8>) -> Result<Option<Seq<u8>>, Seq<char>> {
    if bytes.len() == 0 {
        Ok(None)
    } else if bytes.len() < 17 {
        Err("failed to fill whole buffer"@)
    } else {
        match packed_width(bytes[16]) {
            None => Err(kind_message()),
            Some(width) => if bytes.len() < width {
                Err("failed to fill whole buffer"@)
            } else {
                Ok(Some(bytes.take(width as int) + Seq::new((25 - width) as nat, |i: int| 0u8)))
            },
        }
    }
}

/// What a reader has left after an attempt to take a record off its front. A
/// record of unknown kind gives up its first seventeen bytes, the kind among
/// them; a record that is cut short gives up all that was there.
pub open spec fn read_rest(bytes: Seq<u8>) -> Seq<u8> {
    if bytes.len() < 17 {
        Seq::empty()
    } else {
        match packed_width(bytes[16]) {
            None => bytes.skip(17),
            Some(width) => if bytes.len() < width {
                Seq::empty()
            } else {
                bytes.skip(width as int)
            },
        }
    }
}

/// Read one record off the front of `reader`. At the end there is none; a
/// record that is cut short or of an unknown kind fails, and the bytes looked
/// at are gone.
pub fn read(reader: &mut &[u8]) -> (record: Result<Option<Record>, GfError>)
    ensures
        match read_outcome((*old(reader))@) {
            Ok(None) => record matches Ok(None),
            Ok(Some(bytes)) => record matches Ok(Some(record)) && record@ == bytes,
            Err(message) => record matches Err(error) && error.is_storage(message),
        },
        (*final(reader))@ == read_rest((*old(reader))@),
{
    let bytes: &[u8] = *reader;
    if bytes.len() == 0 {
        assert(bytes@ =~= Seq::empty());
        return Ok(None);
    }
    if bytes.len() < EDGE_WIDTH {
        *reader = slice_subrange(bytes, bytes.len(), bytes.len());
        assert((*reader)@ =~= Seq::empty());
        return Err(storage_err("failed to fill whole buffer"));
    }
    let length: usize = match width(bytes[16]) {
        Ok(length) => length,
        Err(error) => {
            *reader = slice_subrange(bytes, EDGE_WIDTH, bytes.len());
            assert((*reader)@ =~= bytes@.skip(17));
            return Err(error);
        },
    };
    if bytes.len() < length {
        *reader = slice_subrange(bytes, bytes.len(), bytes.len());
        assert((*reader)@ =~= Seq::empty());
        return Err(storage_err("failed to fill whole buffer"));
    }
    let mut record: Record = [0u8; WIDTH];
    let mut i: usize = 0;
    while i < length
        invariant
            i <= length <= 25,
            length <= bytes@.len(),
            record@.len() == 25,
            forall|j: int| 0 <= j < i ==> record@[j] == bytes@[j],
            forall|j: int| i <= j < 25 ==> record@[j] == 0,
        decreases length - i,
    {
        record[i] = bytes[i];
        i = i + 1;
    }
    *reader = slice_subrange(bytes, length, bytes.len());
    assert((*reader)@ =~= bytes@.skip(length as int));
    assert(record@ =~= bytes@.take(length as int) + Seq::new((25 - length) as nat, |i: int| 0u8));
    Ok(Some(record))
}

/// Read one record off the front of an in-memory block.
pub fn take(bytes: &mut &[u8]) -> (record: Result<Option<Record>, GfError>)
    ensures
        match read_outcome((*old(bytes))@) {
            Ok(None) => record matches Ok(None),
            Ok(Some(front)) => record matches Ok(Some(record)) && record@ == front,
            Err(message) => record matches Err(error) && error.is_storage(message),
        },
        (*final(bytes))@ == read_rest((*old(bytes))@),
{
    read(bytes)
}

impl Keyed for Identity {
    open spec fn key(self) -> int {
        self.uuid as int
    }

    fn before(&self, other: &Self) -> (less: bool) {
        self.uuid < other.uuid
    }
}

impl Framed for Identity {
    open spec fn valid(self) -> bool {
        self.encodable()
    }

    open spec fn packed(self) -> Seq<u8> {
        self.packed_bytes()
    }

    open spec fn front(bytes: Seq<u8>) -> Result<(Self, nat), Seq<char>> {
        if bytes.len() < 17 {
            Err(partial_message())
        } else {
            match packed_width(bytes[16]) {
                None => Err(kind_message()),
                Some(width) => if bytes.len() < width {
                    Err(partial_message())
                } else {
                    Ok((front_identity(bytes), width))
                },
            }
        }
    }

    proof fn front_of_packed(self, rest: Seq<u8>) {
        lemma_packed(self);
        let bytes = self.packed() + rest;
        assert(bytes.subrange(0, 16) =~= self.packed().subrange(0, 16));
        if self.kind != 1 {
            assert(bytes.subrange(17, 25) =~= self.packed().subrange(17, 25));
        }
        assert(front_identity(bytes) == front_identity(self.packed()));
    }

    proof fn packed_of_front(bytes: Seq<u8>) {
        lemma_front(bytes);
    }

    fn push(&self, out: &mut Vec<u8>) {
        push_be(out, self.uuid, 16);
        out.push(self.kind);
        if self.kind != 1 {
            push_be(out, self.surrogate as u128, 8);
        }
        assert(out@ =~= old(out)@ + self.packed());
    }

    fn read_front(bytes: &[u8], offset: usize) -> (record: Result<(Self, usize), GfError>) {
        let ghost rest = bytes@.skip(offset as int);
        if bytes.len() - offset < EDGE_WIDTH {
            return Err(storage_err("partial identity record in authenticated block"));
        }
        let kind: u8 = bytes[offset + 16];
        let length: usize = match width(kind) {
            Ok(length) => length,
            Err(error) => {
                return Err(error);
            },
        };
        if bytes.len() - offset < length {
            return Err(storage_err("partial identity record in authenticated block"));
        }
        let uuid: u128 = read_be(bytes, offset, 16);
        let surrogate: u64 = if kind == 1 {
            0
        } else {
            read_be_u64(bytes, offset + 17)
        };
        proof {
            assert(rest.subrange(0, 16) =~= bytes@.subrange(offset as int, offset + 16));
            if kind != 1 {
                assert(rest.subrange(17, 25) =~= bytes@.subrange(offset + 17, offset + 25));
            }
        }
        Ok((Identity { uuid, kind, surrogate }, length))
    }

    fn key_value(&self) -> (key: u128) {
        self.uuid
    }
}

/// Record count and the first and last key of a well-framed block, or the
/// failure: a key out of order, the first place that is no record, or an
/// empty block.
pub open spec fn layout_outcome<T: Framed>(
    bytes: Seq<u8>,
    disorder: Seq<char>,
    empty: Seq<char>,
) -> Result<(nat, int, int), Seq<char>> {
    let (items, fault) = scan::<T>(bytes);
    if !ordered(items) {
        Err(disorder)
    } else if fault is Some {
        Err(fault->0)
    } else if items.len() == 0 {
        Err(empty)
    } else {
        Ok((items.len(), items[0].key(), items.last().key()))
    }
}

/// Validate the framing and the key order of a block: its record count and
/// its first and last key.
pub fn block_layout<T: Framed>(bytes: &[u8], disorder: &str, empty: &str) -> (fences: Result<
    (u64, u128, u128),
    GfError,
>)
    ensures
        match layout_outcome::<T>(bytes@, disorder@, empty@) {
            Ok(want) => fences matches Ok(fences) && fences.0 == want.0 && fences.1 == want.1
                && fences.2 == want.2,
            Err(message) => fences matches Err(error) && error.is_storage(message),
        },
{
    let ghost all = scan::<T>(bytes@).0;
    let ghost mut seen = Seq::<T>::empty();
    let mut first: u128 = 0;
    let mut last: u128 = 0;
    let mut count: u64 = 0;
    let mut offset: usize = 0;
    assert(bytes@.skip(0) =~= bytes@);
    assert(seen + all =~= all);
    while offset < bytes.len()
        invariant
            offset <= bytes.len(),
            count == seen.len(),
            count <= offset,
            all == seen + scan::<T>(bytes@.skip(offset as int)).0,
            all == scan::<T>(bytes@).0,
            scan::<T>(bytes@).1 == scan::<T>(bytes@.skip(offset as int)).1,
            ordered(seen),
            count > 0 ==> first == seen[0].key() && last == seen.last().key(),
        decreases bytes.len() - offset,
    {
        let ghost rest = bytes@.skip(offset as int);
        let (item, width): (T, usize) = match T::read_front(bytes, offset) {
            Ok(front) => front,
            Err(error) => {
                assert(all =~= seen);
                return Err(error);
            },
        };
        let key: u128 = item.key_value();
        proof {
            T::packed_of_front(rest);
            assert(rest.skip(width as int) =~= bytes@.skip(offset + width));
            assert(seen + scan::<T>(rest).0 =~= seen.push(item) + scan::<T>(
                bytes@.skip(offset + width),
            ).0);
        }
        if count > 0 && last >= key {
            assert(all[count - 1] == seen.last());
            assert(all[count as int] == item);
            assert(!ordered(all));
            return Err(storage_err(disorder));
        }
        if count == 0 {
            first = key;
        }
        last = key;
        proof {
            assert(ordered(seen.push(item)));
            seen = seen.push(item);
        }
        offset = offset + width;
        count = count + 1;
    }
    assert(bytes@.skip(offset as int) =~= Seq::<u8>::empty());
    assert(all =~= seen);
    if count == 0 {
        return Err(storage_err(empty));
    }
    Ok((count, first, last))
}

/// Validate complete block framing and ordered UUID fences: the record count
/// and the first and last UUID.
pub fn layout(bytes: &[u8]) -> (fences: Result<(u64, u128, u128), GfError>)
    ensures
        match layout_outcome::<Identity>(
            bytes@,
            "identity block UUIDs are not strictly ordered"@,
            "empty identity block"@,
        ) {
            Ok(want) => fences matches Ok(fences) && fences.0 == want.0 && fences.1 == want.1
                && fences.2 == want.2,
            Err(message) => fences matches Err(error) && error.is_storage(message),
        },
{
    block_layout::<Identity>(
        bytes,
        "identity block UUIDs are not strictly ordered",
        "empty identity block",
    )
}

} // verus!
