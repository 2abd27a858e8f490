//! Fixed-width records of the identity index.
use vstd::prelude::*;
use vstd::slice::*;

use crate::bytes::{
    be_bytes, be_value, le_bytes, le_value, lemma_be_bytes_of_value, lemma_be_value_bound,
    lemma_be_value_of_bytes, lemma_pow256_words, pow256, push_be, push_le_u64, read_be,
    read_be_u64, read_le_u64,
};
use crate::error::{GfError, storage_err};
use crate::framing::Framed;
use crate::keyed::Keyed;

verus! {

proof fn lemma_le_value_of_bytes(value: nat)
    requires
        value < pow256(8),
    ensures
        le_bytes(value, 8).len() == 8,
        le_value(le_bytes(value, 8)) == value,
{
    lemma_be_value_of_bytes(value, 8);
    assert(le_bytes(value, 8).reverse() =~= be_bytes(value, 8));
}

proof fn lemma_le_bytes_of_value(bytes: Seq<u8>)
    requires
        bytes.len() == 8,
    ensures
        le_value(bytes) < pow256(8),
        le_bytes(le_value(bytes), 8) == bytes,
{
    lemma_be_value_bound(bytes.reverse());
    lemma_be_bytes_of_value(bytes.reverse());
    assert(bytes.reverse().reverse() =~= bytes);
}

/// A surrogate-ordered node record: the surrogate, then the UUID.
#[derive(Clone, Copy, Debug, PartialEq, Eq, Structural)]
pub struct NodeSurrogate {
    /// Node surrogate.
    pub surrogate: u64,
    /// Node UUID.
    pub uuid: u128,
}

impl Keyed for NodeSurrogate {
    open spec fn key(self) -> int {
        self.surrogate as int
    }

    fn before(&self, other: &Self) -> (less: bool) {
        self.surrogate < other.surrogate
    }
}

impl Framed for NodeSurrogate {
    open spec fn valid(self) -> bool {
        true
    }

    open spec fn packed(self) -> Seq<u8> {
        be_bytes(self.surrogate as nat, 8) + be_bytes(self.uuid as nat, 16)
    }

    open spec fn front(bytes: Seq<u8>) -> Result<(Self, nat), Seq<char>> {
        if bytes.len() < 24 {
            Err("truncated fixed-width index record"@)
        } else {
            Ok(
                (
                    NodeSurrogate {
                        surrogate: be_value(bytes.subrange(0, 8)) as u64,
                        uuid: be_value(bytes.subrange(8, 24)) as u128,
                    },
                    24,
                ),
            )
        }
    }

    proof fn front_of_packed(self, rest: Seq<u8>) {
        lemma_pow256_words();
        lemma_be_value_of_bytes(self.surrogate as nat, 8);
        lemma_be_value_of_bytes(self.uuid as nat, 16);
        let bytes = self.packed() + rest;
        assert(bytes.subrange(0, 8) =~= be_bytes(self.surrogate as nat, 8));
        assert(bytes.subrange(8, 24) =~= be_bytes(self.uuid as nat, 16));
    }

    proof fn packed_of_front(bytes: Seq<u8>) {
        lemma_pow256_words();
        lemma_be_value_bound(bytes.subrange(0, 8));
        lemma_be_bytes_of_value(bytes.subrange(0, 8));
        lemma_be_value_bound(bytes.subrange(8, 24));
        lemma_be_bytes_of_value(bytes.subrange(8, 24));
        assert(Self::front(bytes)->Ok_0.0.packed() =~= bytes.take(24));
    }

    fn push(&self, out: &mut Vec<u8>) {
        push_be(out, self.surrogate as u128, 8);
        push_be(out, self.uuid, 16);
        assert(out@ =~= old(out)@ + self.packed());
    }

    fn read_front(bytes: &[u8], offset: usize) -> (record: Result<(Self, usize), GfError>) {
        let ghost rest = bytes@.skip(offset as int);
        if bytes.len() - offset < 24 {
            return Err(storage_err("truncated fixed-width index record"));
        }
        let surrogate: u64 = read_be_u64(bytes, offset + 0);
        let uuid: u128 = read_be(bytes, offset + 8, 16);
        proof {
            assert(rest.subrange(0, 8) =~= bytes@.subrange(offset + 0, offset + 8));
            assert(rest.subrange(8, 24) =~= bytes@.subrange(offset + 8, offset + 24));
        }
        Ok((NodeSurrogate { surrogate, uuid }, 24))
    }

    fn key_value(&self) -> (key: u128) {
        self.surrogate as u128
    }
}

/// A UUID-ordered mapping: the UUID, then the node identifier.
#[derive(Clone, Copy, Debug, PartialEq, Eq, Structural)]
pub struct ForwardRecord {
    /// Node UUID.
    pub uuid: u128,
    /// Node identifier.
    pub node_id: u64,
}

impl Keyed for ForwardRecord {
    open spec fn key(self) -> int {
        self.uuid as int
    }

    fn before(&self, other: &Self) -> (less: bool) {
        self.uuid < other.uuid
    }
}

impl Framed for ForwardRecord {
    open spec fn valid(self) -> bool {
        true
    }

    open spec fn packed(self) -> Seq<u8> {
        be_bytes(self.uuid as nat, 16) + be_bytes(self.node_id as nat, 8)
    }

    open spec fn front(bytes: Seq<u8>) -> Result<(Self, nat), Seq<char>> {
        if bytes.len() < 24 {
            Err("truncated fixed-width index record"@)
        } else {
            Ok(
                (
                    ForwardRecord {
                        uuid: be_value(bytes.subrange(0, 16)) as u128,
                        node_id: be_value(bytes.subrange(16, 24)) as u64,
                    },
                    24,
                ),
            )
        }
    }

    proof fn front_of_packed(self, rest: Seq<u8>) {
        lemma_pow256_words();
        lemma_be_value_of_bytes(self.uuid as nat, 16);
        lemma_be_value_of_bytes(self.node_id as nat, 8);
        let bytes = self.packed() + rest;
        assert(bytes.subrange(0, 16) =~= be_bytes(self.uuid as nat, 16));
        assert(bytes.subrange(16, 24) =~= be_bytes(self.node_id as nat, 8));
    }

    proof fn packed_of_front(bytes: Seq<u8>) {
        lemma_pow256_words();
        lemma_be_value_bound(bytes.subrange(0, 16));
        lemma_be_bytes_of_value(bytes.subrange(0, 16));
        lemma_be_value_bound(bytes.subrange(16, 24));
        lemma_be_bytes_of_value(bytes.subrange(16, 24));
        assert(Self::front(bytes)->Ok_0.0.packed() =~= bytes.take(24));
    }

    fn push(&self, out: &mut Vec<u8>) {
        push_be(out, self.uuid, 16);
        push_be(out, self.node_id as u128, 8);
        assert(out@ =~= old(out)@ + self.packed());
    }

    fn read_front(bytes: &[u8], offset: usize) -> (record: Result<(Self, usize), GfError>) {
        let ghost rest = bytes@.skip(offset as int);
        if bytes.len() - offset < 24 {
            return Err(storage_err("truncated fixed-width index record"));
        }
        let uuid: u128 = read_be(bytes, offset + 0, 16);
        let node_id: u64 = read_be_u64(bytes, offset + 16);
        proof {
            assert(rest.subrange(0, 16) =~= bytes@.subrange(offset + 0, offset + 16));
            assert(rest.subrange(16, 24) =~= bytes@.subrange(offset + 16, offset + 24));
        }
        Ok((ForwardRecord { uuid, node_id }, 24))
    }

    fn key_value(&self) -> (key: u128) {
        self.uuid
    }
}

/// A UUID-ordered scratch record: the UUID, then a little-endian identifier.
#[derive(Clone, Copy, Debug, PartialEq, Eq, Structural)]
pub struct ScratchRecord {
    /// UUID.
    pub uuid: u128,
    /// Node identifier; unused for an edge.
    pub node_id: u64,
}

impl Keyed for ScratchRecord {
    open spec fn key(self) -> int {
        self.uuid as int
    }

    fn before(&self, other: &Self) -> (less: bool) {
        self.uuid < other.uuid
    }
}

impl Framed for ScratchRecord {
    open spec fn valid(self) -> bool {
        true
    }

    open spec fn packed(self) -> Seq<u8> {
        be_bytes(self.uuid as nat, 16) + le_bytes(self.node_id as nat, 8)
    }

    open spec fn front(bytes: Seq<u8>) -> Result<(Self, nat), Seq<char>> {
        if bytes.len() < 24 {
            Err("truncated fixed-width index record"@)
        } else {
            Ok(
                (
                    ScratchRecord {
                        uuid: be_value(bytes.subrange(0, 16)) as u128,
                        node_id: le_value(bytes.subrange(16, 24)) as u64,
                    },
                    24,
                ),
            )
        }
    }

    proof fn front_of_packed(self, rest: Seq<u8>) {
        lemma_pow256_words();
        lemma_be_value_of_bytes(self.uuid as nat, 16);
        lemma_le_value_of_bytes(self.node_id as nat);
        let bytes = self.packed() + rest;
        assert(bytes.subrange(0, 16) =~= be_bytes(self.uuid as nat, 16));
        assert(bytes.subrange(16, 24) =~= le_bytes(self.node_id as nat, 8));
    }

    proof fn packed_of_front(bytes: Seq<u8>) {
        lemma_pow256_words();
        lemma_be_value_bound(bytes.subrange(0, 16));
        lemma_be_bytes_of_value(bytes.subrange(0, 16));
        lemma_le_bytes_of_value(bytes.subrange(16, 24));
        assert(Self::front(bytes)->Ok_0.0.packed() =~= bytes.take(24));
    }

    fn push(&self, out: &mut Vec<u8>) {
        push_be(out, self.uuid, 16);
        push_le_u64(out, self.node_id);
        assert(out@ =~= old(out)@ + self.packed());
    }

    fn read_front(bytes: &[u8], offset: usize) -> (record: Result<(Self, usize), GfError>) {
        let ghost rest = bytes@.skip(offset as int);
        if bytes.len() - offset < 24 {
            return Err(storage_err("truncated fixed-width index record"));
        }
        let uuid: u128 = read_be(bytes, offset + 0, 16);
        let node_id: u64 = read_le_u64(bytes, offset + 16);
        proof {
            assert(rest.subrange(0, 16) =~= bytes@.subrange(offset + 0, offset + 16));
            assert(rest.subrange(16, 24) =~= bytes@.subrange(offset + 16, offset + 24));
        }
        Ok((ScratchRecord { uuid, node_id }, 24))
    }

    fn key_value(&self) -> (key: u128) {
        self.uuid
    }
}

/// The identifier of a deleted node.
#[derive(Clone, Copy, Debug, PartialEq, Eq, Structural)]
pub struct NodeTombstone {
    /// Node identifier.
    pub node_id: u64,
}

impl Keyed for NodeTombstone {
    open spec fn key(self) -> int {
        self.node_id as int
    }

    fn before(&self, other: &Self) -> (less: bool) {
        self.node_id < other.node_id
    }
}

impl Framed for NodeTombstone {
    open spec fn valid(self) -> bool {
        true
    }

    open spec fn packed(self) -> Seq<u8> {
        be_bytes(self.node_id as nat, 8)
    }

    open spec fn front(bytes: Seq<u8>) -> Result<(Self, nat), Seq<char>> {
        if bytes.len() < 8 {
            Err("truncated fixed-width index record"@)
        } else {
            Ok(
                (
                    NodeTombstone {
                        node_id: be_value(bytes.subrange(0, 8)) as u64,
                    },
                    8,
                ),
            )
        }
    }

    proof fn front_of_packed(self, rest: Seq<u8>) {
        lemma_pow256_words();
        lemma_be_value_of_bytes(self.node_id as nat, 8);
        let bytes = self.packed() + rest;
        assert(bytes.subrange(0, 8) =~= be_bytes(self.node_id as nat, 8));
    }

    proof fn packed_of_front(bytes: Seq<u8>) {
        lemma_pow256_words();
        lemma_be_value_bound(bytes.subrange(0, 8));
        lemma_be_bytes_of_value(bytes.subrange(0, 8));
        assert(Self::front(bytes)->Ok_0.0.packed() =~= bytes.take(8));
    }

    fn push(&self, out: &mut Vec<u8>) {
        push_be(out, self.node_id as u128, 8);
        assert(out@ =~= old(out)@ + self.packed());
    }

    fn read_front(bytes: &[u8], offset: usize) -> (record: Result<(Self, usize), GfError>) {
        let ghost rest = bytes@.skip(offset as int);
        if bytes.len() - offset < 8 {
            return Err(storage_err("truncated fixed-width index record"));
        }
        let node_id: u64 = read_be_u64(bytes, offset + 0);
        proof {
            assert(rest.subrange(0, 8) =~= bytes@.subrange(offset + 0, offset + 8));
        }
        Ok((NodeTombstone { node_id }, 8))
    }

    fn key_value(&self) -> (key: u128) {
        self.node_id as u128
    }
}

/// A shaped identity: the UUID, the kind, a reserved byte and the surrogate.
#[derive(Clone, Copy, Debug, PartialEq, Eq, Structural)]
pub struct ConstructionRow {
    /// UUID.
    pub uuid: u128,
    /// Zero for a node, one for an edge.
    pub kind: u8,
    /// Always zero.
    pub reserved: u8,
    /// Surrogate.
    pub surrogate: u64,
}

impl Keyed for ConstructionRow {
    open spec fn key(self) -> int {
        self.uuid as int
    }

    fn before(&self, other: &Self) -> (less: bool) {
        self.uuid < other.uuid
    }
}

impl Framed for ConstructionRow {
    open spec fn valid(self) -> bool {
        true
    }

    open spec fn packed(self) -> Seq<u8> {
        be_bytes(self.uuid as nat, 16) + seq![self.kind] + seq![self.reserved] + be_bytes(self.surrogate as nat, 8)
    }

    open spec fn front(bytes: Seq<u8>) -> Result<(Self, nat), Seq<char>> {
        if bytes.len() < 26 {
            Err("construction identity stream is truncated"@)
        } else {
            Ok(
                (
                    ConstructionRow {
                        uuid: be_value(bytes.subrange(0, 16)) as u128,
                        kind: bytes[16],
                        reserved: bytes[17],
                        surrogate: be_value(bytes.subrange(18, 26)) as u64,
                    },
                    26,
                ),
            )
        }
    }

    proof fn front_of_packed(self, rest: Seq<u8>) {
        lemma_pow256_words();
        lemma_be_value_of_bytes(self.uuid as nat, 16);
        lemma_be_value_of_bytes(self.surrogate as nat, 8);
        let bytes = self.packed() + rest;
        assert(bytes.subrange(0, 16) =~= be_bytes(self.uuid as nat, 16));
        assert(bytes.subrange(18, 26) =~= be_bytes(self.surrogate as nat, 8));
    }

    proof fn packed_of_front(bytes: Seq<u8>) {
        lemma_pow256_words();
        lemma_be_value_bound(bytes.subrange(0, 16));
        lemma_be_bytes_of_value(bytes.subrange(0, 16));
        lemma_be_value_bound(bytes.subrange(18, 26));
        lemma_be_bytes_of_value(bytes.subrange(18, 26));
        assert(Self::front(bytes)->Ok_0.0.packed() =~= bytes.take(26));
    }

    fn push(&self, out: &mut Vec<u8>) {
        push_be(out, self.uuid, 16);
        out.push(self.kind);
        out.push(self.reserved);
        push_be(out, self.surrogate as u128, 8);
        assert(out@ =~= old(out)@ + self.packed());
    }

    fn read_front(bytes: &[u8], offset: usize) -> (record: Result<(Self, usize), GfError>) {
        let ghost rest = bytes@.skip(offset as int);
        if bytes.len() - offset < 26 {
            return Err(storage_err("construction identity stream is truncated"));
        }
        let uuid: u128 = read_be(bytes, offset + 0, 16);
        let kind: u8 = bytes[offset + 16];
        let reserved: u8 = bytes[offset + 17];
        let surrogate: u64 = read_be_u64(bytes, offset + 18);
        proof {
            assert(rest.subrange(0, 16) =~= bytes@.subrange(offset + 0, offset + 16));
            assert(rest.subrange(18, 26) =~= bytes@.subrange(offset + 18, offset + 26));
        }
        Ok((ConstructionRow { uuid, kind, reserved, surrogate }, 26))
    }

    fn key_value(&self) -> (key: u128) {
        self.uuid
    }
}

/// A record of `N` bytes at the front of a byte string: none at its end, or
/// a failure, which uses up what is left, where fewer bytes are left.
pub fn read_exact_record<const N: usize>(reader: &mut &[u8]) -> (record: Result<
    Option<Vec<u8>>,
    GfError,
>)
    requires
        N > 0,
    ensures
        ({
            let bytes = (*old(reader))@;
            if bytes.len() == 0 {
                record matches Ok(None) && (*final(reader))@ == bytes
            } else if bytes.len() < N {
                &&& record matches Err(error) && error.is_storage(
                    "truncated fixed-width index record"@,
                )
                &&& (*final(reader))@ == Seq::<u8>::empty()
            } else {
                &&& record matches Ok(Some(record)) && record@ == bytes.take(N as int)
                &&& (*final(reader))@ == bytes.skip(N as int)
            }
        }),
{
    let bytes: &[u8] = *reader;
    if bytes.len() == 0 {
        return Ok(None);
    }
    if bytes.len() < N {
        *reader = slice_subrange(bytes, bytes.len(), bytes.len());
        assert((*reader)@ =~= Seq::empty());
        return Err(storage_err("truncated fixed-width index record"));
    }
    let record: Vec<u8> = slice_to_vec(slice_subrange(bytes, 0, N));
    *reader = slice_subrange(bytes, N, bytes.len());
    assert(record@ =~= bytes@.take(N as int));
    assert((*reader)@ =~= bytes@.skip(N as int));
    Ok(Some(record))
}

/// A UUID on its own.
#[derive(Clone, Copy, Debug, PartialEq, Eq, Structural)]
pub struct UuidRecord {
    /// The UUID.
    pub uuid: u128,
}

impl Keyed for UuidRecord {
    open spec fn key(self) -> int {
        self.uuid as int
    }

    fn before(&self, other: &Self) -> (less: bool) {
        self.uuid < other.uuid
    }
}

impl Framed for UuidRecord {
    open spec fn valid(self) -> bool {
        true
    }

    open spec fn packed(self) -> Seq<u8> {
        be_bytes(self.uuid as nat, 16)
    }

    open spec fn front(bytes: Seq<u8>) -> Result<(Self, nat), Seq<char>> {
        if bytes.len() < 16 {
            Err("truncated fixed-width index record"@)
        } else {
            Ok((UuidRecord { uuid: be_value(bytes.subrange(0, 16)) as u128 }, 16))
        }
    }

    proof fn front_of_packed(self, rest: Seq<u8>) {
        lemma_pow256_words();
        lemma_be_value_of_bytes(self.uuid as nat, 16);
        let bytes = self.packed() + rest;
        assert(bytes.subrange(0, 16) =~= be_bytes(self.uuid as nat, 16));
    }

    proof fn packed_of_front(bytes: Seq<u8>) {
        lemma_pow256_words();
        lemma_be_value_bound(bytes.subrange(0, 16));
        lemma_be_bytes_of_value(bytes.subrange(0, 16));
        assert(Self::front(bytes)->Ok_0.0.packed() =~= bytes.take(16));
    }

    fn push(&self, out: &mut Vec<u8>) {
        push_be(out, self.uuid, 16);
        assert(out@ =~= old(out)@ + self.packed());
    }

    fn read_front(bytes: &[u8], offset: usize) -> (record: Result<(Self, usize), GfError>) {
        let ghost rest = bytes@.skip(offset as int);
        if bytes.len() - offset < 16 {
            return Err(storage_err("truncated fixed-width index record"));
        }
        let uuid: u128 = read_be(bytes, offset + 0, 16);
        proof {
            assert(rest.subrange(0, 16) =~= bytes@.subrange(offset + 0, offset + 16));
        }
        Ok((UuidRecord { uuid }, 16))
    }

    fn key_value(&self) -> (key: u128) {
        self.uuid
    }
}

} // verus!
