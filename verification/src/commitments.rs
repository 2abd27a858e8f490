//! Commitments to a set of identity mappings: the sum of the digests of the
//! mappings, in 256 bits.
use vstd::arithmetic::div_mod::lemma_fundamental_div_mod_converse;
use vstd::prelude::*;
use vstd::seq_lib::*;
use vstd::string::*;
use vstd::utf8::*;

use crate::bytes::{be_bytes, be_value, pow256, push_all, push_be};
use crate::digest::{sha256, sha256_digest};
use crate::records::ForwardRecord;

verus! {

/// What is hashed for one mapping.
pub open spec fn mapping_bytes(domain: u8, mapping: ForwardRecord) -> Seq<u8> {
    encode_utf8("graphforge-v4-mapping-v1\0"@) + seq![domain] + be_bytes(mapping.uuid as nat, 16)
        + be_bytes(mapping.node_id as nat, 8)
}

/// What one mapping adds to a commitment.
pub open spec fn mapping_value(domain: u8, mapping: ForwardRecord) -> nat {
    be_value(sha256_digest(mapping_bytes(domain, mapping)))
}

/// What some mappings add up to.
pub open spec fn mapping_sum(domain: u8, mappings: Seq<ForwardRecord>) -> nat
    decreases mappings.len(),
{
    if mappings.len() == 0 {
        0
    } else {
        mapping_sum(domain, mappings.drop_last()) + mapping_value(domain, mappings.last())
    }
}

/// The commitment to some mappings.
pub open spec fn commitment(domain: u8, mappings: Seq<ForwardRecord>) -> nat {
    mapping_sum(domain, mappings) % pow256(32)
}

proof fn lemma_sum_remove(domain: u8, mappings: Seq<ForwardRecord>, at: int)
    requires
        0 <= at < mappings.len(),
    ensures
        mapping_sum(domain, mappings) == mapping_sum(domain, mappings.remove(at)) + mapping_value(
            domain,
            mappings[at],
        ),
    decreases mappings.len(),
{
    if at == mappings.len() - 1 {
        assert(mappings.remove(at) =~= mappings.drop_last());
    } else {
        lemma_sum_remove(domain, mappings.drop_last(), at);
        assert(mappings.remove(at).drop_last() =~= mappings.drop_last().remove(at));
        assert(mappings.remove(at).last() == mappings.last());
    }
}

/// A commitment does not depend on the order of the mappings.
pub proof fn lemma_commitment_order(
    domain: u8,
    left: Seq<ForwardRecord>,
    right: Seq<ForwardRecord>,
)
    requires
        left.to_multiset() == right.to_multiset(),
    ensures
        mapping_sum(domain, left) == mapping_sum(domain, right),
        commitment(domain, left) == commitment(domain, right),
    decreases left.len(),
{
    broadcast use group_to_multiset_ensures;

    assert(left.len() == left.to_multiset().len());
    assert(right.len() == right.to_multiset().len());
    if left.len() > 0 {
        let last = left.last();
        assert(left.contains(last)) by {
            assert(left[left.len() - 1] == last);
        }
        assert(right.to_multiset().contains(last));
        assert(right.contains(last));
        let at = choose|at: int| 0 <= at < right.len() && right[at] == last;
        to_multiset_remove(right, at);
        to_multiset_remove(left, left.len() - 1);
        assert(left.remove(left.len() - 1) =~= left.drop_last());
        lemma_commitment_order(domain, left.drop_last(), right.remove(at));
        lemma_sum_remove(domain, right, at);
    }
}

proof fn lemma_wide_remainder(high: nat, low: nat, modulus: nat)
    requires
        low < 256,
        0 < modulus,
    ensures
        (256 * high + low) % (256 * modulus) == 256 * (high % modulus) + low,
{
    let q = high / modulus;
    let r = high % modulus;
    assert(high == q * modulus + r) by (nonlinear_arith)
        requires
            q == high / modulus,
            r == high % modulus,
            0 < modulus,
    ;
    assert(256 * high + low == q * (256 * modulus) + (256 * r + low)) by (nonlinear_arith)
        requires
            high == q * modulus + r,
    ;
    assert(r < modulus) by (nonlinear_arith)
        requires
            r == high % modulus,
            0 < modulus,
    ;
    lemma_fundamental_div_mod_converse(
        (256 * high + low) as int,
        (256 * modulus) as int,
        q as int,
        (256 * r + low) as int,
    );
}

/// The sum of two numbers of `n` bytes and a carry, in `n` bytes.
fn add_be(left: &[u8], right: &[u8], n: usize, carry: u8) -> (sum: Vec<u8>)
    requires
        n <= left@.len(),
        n <= right@.len(),
        carry <= 1,
    ensures
        sum@.len() == n,
        be_value(sum@) == (be_value(left@.take(n as int)) + be_value(right@.take(n as int))
            + carry) % pow256(n as nat) as int,
    decreases n,
{
    if n == 0 {
        let sum: Vec<u8> = Vec::new();
        assert(left@.take(0) =~= Seq::<u8>::empty());
        assert(right@.take(0) =~= Seq::<u8>::empty());
        assert(carry as int % 1 == 0);
        return sum;
    }
    let total: u16 = left[n - 1] as u16 + right[n - 1] as u16 + carry as u16;
    let low: u8 = (total % 256) as u8;
    let next: u8 = (total / 256) as u8;
    let mut sum: Vec<u8> = add_be(left, right, n - 1, next);
    let ghost high = sum@;
    sum.push(low);
    proof {
        let l = left@.take(n as int);
        let r = right@.take(n as int);
        assert(l.drop_last() =~= left@.take(n - 1));
        assert(r.drop_last() =~= right@.take(n - 1));
        assert(sum@.drop_last() =~= high);
        let a = be_value(l.drop_last());
        let b = be_value(r.drop_last());
        crate::bytes::lemma_pow256_monotone((n - 1) as nat, n as nat);
        lemma_wide_remainder((a + b + next) as nat, low as nat, pow256((n - 1) as nat));
        assert(be_value(l) + be_value(r) + carry == 256 * (a + b + next) + low);
    }
    sum
}

/// Add one mapping to a commitment.
pub(crate) fn add_v4_mapping_commitment(
    held: &Vec<u8>,
    domain: u8,
    mapping: ForwardRecord,
    Ghost(mappings): Ghost<Seq<ForwardRecord>>,
) -> (next: Vec<u8>)
    requires
        held@.len() == 32,
        be_value(held@) == commitment(domain, mappings),
    ensures
        next@.len() == 32,
        be_value(next@) == commitment(domain, mappings.push(mapping)),
{
    let mut input: Vec<u8> = Vec::new();
    let tag: &str = "graphforge-v4-mapping-v1\0";
    push_all(&mut input, tag.as_bytes());
    input.push(domain);
    push_be(&mut input, mapping.uuid, 16);
    push_be(&mut input, mapping.node_id as u128, 8);
    assert(input@ =~= mapping_bytes(domain, mapping));
    let digest: [u8; 32] = sha256(input.as_slice());
    let next: Vec<u8> = add_be(held.as_slice(), digest.as_slice(), 32, 0);
    proof {
        assert(held@.take(32) =~= held@);
        assert(digest@.take(32) =~= digest@);
        assert(mappings.push(mapping).drop_last() =~= mappings);
        crate::bytes::lemma_pow256_monotone(0, 32);
        vstd::arithmetic::div_mod::lemma_add_mod_noop_right(
            mapping_value(domain, mapping) as int,
            mapping_sum(domain, mappings) as int,
            pow256(32) as int,
        );
        assert(be_value(next@) == (mapping_value(domain, mapping) + mapping_sum(domain, mappings)
            % pow256(32)) % pow256(32));
    }
    next
}

/// The commitment to no mapping.
pub(crate) fn empty_commitment(domain: u8) -> (held: Vec<u8>)
    ensures
        held@.len() == 32,
        be_value(held@) == commitment(domain, Seq::empty()),
{
    let mut held: Vec<u8> = Vec::new();
    let mut i: usize = 0;
    while i < 32
        invariant
            i <= 32,
            held@.len() == i,
            be_value(held@) == 0,
        decreases 32 - i,
    {
        let ghost before = held@;
        held.push(0);
        assert(held@.drop_last() =~= before);
        i = i + 1;
    }
    proof {
        crate::bytes::lemma_pow256_monotone(0, 32);
        vstd::arithmetic::div_mod::lemma_small_mod(0, pow256(32));
    }
    held
}

} // verus!
