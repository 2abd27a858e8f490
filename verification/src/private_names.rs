//! Names of private ordinal artifacts and their temporaries.
use vstd::prelude::*;
use vstd::slice::*;
use vstd::string::*;
use vstd::utf8::*;

use crate::bytes::{
    all_lower_hex, ascii, decimal_codes, decimal_text, has_prefix, has_suffix, is_lower_hex,
    lemma_ascii_utf8, only_lower_hex, same_bytes, starts_with,
};

verus! {

/// Whether a text is lowercase hexadecimal of one length.
pub open spec fn lower_hex_text(text: Seq<char>, length: nat) -> bool {
    encode_utf8(text).len() == length && all_lower_hex(encode_utf8(text))
}

/// A text is lowercase hexadecimal of one length where it has so many characters
/// and each of them is a decimal digit or one of the letters from `a` to `f`.
pub proof fn lemma_lower_hex_characters(text: Seq<char>, length: nat)
    ensures
        lower_hex_text(text, length) <==> text.len() == length && forall|i: int|
            0 <= i < text.len() ==> ('0' <= #[trigger] text[i] <= '9' || 'a' <= text[i] <= 'f'),
{
    let bytes = encode_utf8(text);
    if lower_hex_text(text, length) {
        assert forall|i: int| 0 <= i < bytes.len() implies #[trigger] bytes[i] < 128 by {
            assert(is_lower_hex(bytes[i]));
        }
        lemma_ascii_utf8(bytes);
        encode_utf8_decode_utf8(text);
        encode_utf8_decode_utf8(ascii(bytes));
        assert(text == ascii(bytes));
        assert forall|i: int| 0 <= i < text.len() implies ('0' <= #[trigger] text[i] <= '9' || 'a'
            <= text[i] <= 'f') by {
            assert(is_lower_hex(bytes[i]));
        }
    }
    if text.len() == length && forall|i: int|
        0 <= i < text.len() ==> ('0' <= #[trigger] text[i] <= '9' || 'a' <= text[i] <= 'f') {
        assert(is_ascii_chars(text)) by {
            assert forall|i: int| 0 <= i < text.len() implies '\0' <= #[trigger] text[i]
                <= '\u{7f}' by {}
        }
        is_ascii_chars_encode_utf8(text);
        assert forall|i: int| 0 <= i < bytes.len() implies #[trigger] is_lower_hex(bytes[i]) by {
            assert(bytes[i] == text[i] as u8);
        }
    }
}

/// Whether a text is lowercase hexadecimal of one length.
pub fn canonical_lower_hex(value: &str, length: usize) -> (yes: bool)
    ensures
        yes == lower_hex_text(value@, length as nat),
{
    let bytes: &[u8] = value.as_bytes();
    bytes.len() == length && only_lower_hex(bytes)
}

/// Whether a byte string is made of decimal digits only.
pub open spec fn all_digits(bytes: Seq<u8>) -> bool {
    forall|i: int| 0 <= i < bytes.len() ==> 48 <= #[trigger] bytes[i] <= 57
}

/// The number that decimal digits stand for.
pub open spec fn digits_value(bytes: Seq<u8>) -> int
    decreases bytes.len(),
{
    if bytes.len() == 0 {
        0
    } else {
        digits_value(bytes.drop_last()) * 10 + (bytes.last() - 48)
    }
}

pub(crate) proof fn lemma_decimal_value(value: nat)
    ensures
        all_digits(decimal_text(value)),
        decimal_text(value).len() > 0,
        digits_value(decimal_text(value)) == value,
    decreases value,
{
    if value >= 10 {
        lemma_decimal_value(value / 10);
        let head = decimal_text(value / 10);
        let all = decimal_text(value);
        assert(all.drop_last() =~= head);
    } else {
        assert(decimal_text(value).drop_last() =~= Seq::<u8>::empty());
        assert(digits_value(Seq::<u8>::empty()) == 0);
    }
}

proof fn lemma_digits_grow(bytes: Seq<u8>, n: int)
    requires
        0 <= n <= bytes.len(),
        all_digits(bytes),
    ensures
        0 <= digits_value(bytes.take(n)) <= digits_value(bytes),
    decreases bytes.len(),
{
    if n < bytes.len() {
        let head = bytes.drop_last();
        assert(head.take(n) =~= bytes.take(n));
        assert(all_digits(head)) by {
            assert forall|i: int| 0 <= i < head.len() implies 48 <= #[trigger] head[i] <= 57 by {
                assert(48 <= bytes[i] <= 57);
            }
        }
        lemma_digits_grow(head, n);
        assert(48 <= bytes[bytes.len() - 1] <= 57);
    } else {
        assert(bytes.take(n) =~= bytes);
        if n > 0 {
            let head = bytes.drop_last();
            assert(all_digits(head)) by {
                assert forall|i: int| 0 <= i < head.len() implies 48 <= #[trigger] head[i]
                    <= 57 by {
                    assert(48 <= bytes[i] <= 57);
                }
            }
            lemma_digits_grow(head, 0);
            lemma_digits_grow(head, head.len() as int);
            assert(48 <= bytes[bytes.len() - 1] <= 57);
        }
    }
}

/// Parse decimal digits; `None` where there is another byte or the number
/// does not fit.
pub(crate) fn parse_digits(bytes: &[u8]) -> (value: Option<u64>)
    ensures
        match value {
            Some(value) => all_digits(bytes@) && digits_value(bytes@) == value,
            None => !all_digits(bytes@) || digits_value(bytes@) > u64::MAX,
        },
{
    let mut value: u64 = 0;
    let mut i: usize = 0;
    assert(bytes@.take(0) =~= Seq::<u8>::empty());
    while i < bytes.len()
        invariant
            i <= bytes.len(),
            all_digits(bytes@.take(i as int)),
            value == digits_value(bytes@.take(i as int)),
        decreases bytes.len() - i,
    {
        let byte: u8 = bytes[i];
        if byte < 48 || byte > 57 {
            assert(!(48 <= bytes@[i as int] <= 57));
            return None;
        }
        let digit: u64 = (byte - 48) as u64;
        let ghost next = bytes@.take(i + 1);
        proof {
            assert(next.drop_last() =~= bytes@.take(i as int));
            assert forall|k: int| 0 <= k < next.len() implies 48 <= #[trigger] next[k] <= 57 by {
                if k < i {
                    assert(48 <= bytes@.take(i as int)[k] <= 57);
                }
            }
            assert(digits_value(next) == value * 10 + digit);
        }
        if value > (u64::MAX - digit) / 10 {
            proof {
                assert(value * 10 + digit > u64::MAX);
                if all_digits(bytes@) {
                    lemma_digits_grow(bytes@, i + 1);
                }
            }
            return None;
        }
        value = value * 10 + digit;
        i = i + 1;
    }
    assert(bytes@.take(i as int) =~= bytes@);
    Some(value)
}

/// Whether a byte string is the decimal text of a nonzero generation.
pub open spec fn is_generation(bytes: Seq<u8>) -> bool {
    exists|generation: u64|
        generation != 0 && bytes == #[trigger] decimal_text(generation as nat)
}

fn canonical_generation(bytes: &[u8]) -> (yes: bool)
    ensures
        yes == is_generation(bytes@),
{
    match parse_digits(bytes) {
        Some(value) => {
            if value == 0 {
                proof {
                    if is_generation(bytes@) {
                        let generation = choose|generation: u64|
                            generation != 0 && bytes@ == #[trigger] decimal_text(
                                generation as nat,
                            );
                        lemma_decimal_value(generation as nat);
                    }
                }
                return false;
            }
            let codes: Vec<u8> = decimal_codes(value);
            let same: bool = same_bytes(codes.as_slice(), bytes);
            proof {
                if is_generation(bytes@) {
                    let generation = choose|generation: u64|
                        generation != 0 && bytes@ == #[trigger] decimal_text(generation as nat);
                    lemma_decimal_value(generation as nat);
                }
            }
            same
        },
        None => {
            proof {
                if is_generation(bytes@) {
                    let generation = choose|generation: u64|
                        generation != 0 && bytes@ == #[trigger] decimal_text(generation as nat);
                    lemma_decimal_value(generation as nat);
                }
            }
            false
        },
    }
}

/// Whether a byte string is the role of a temporary.
pub open spec fn is_role(role: Seq<u8>) -> bool {
    ||| role == encode_utf8("forward"@)
    ||| role == encode_utf8("tombstones"@)
    ||| (starts_with(role, encode_utf8("ordinal-"@)) && role.len() == encode_utf8(
        "ordinal-"@,
    ).len() + 8 && all_digits(role.skip(encode_utf8("ordinal-"@).len() as int)))
}

fn check_role(role: &[u8]) -> (yes: bool)
    ensures
        yes == is_role(role@),
{
    let forward: &str = "forward";
    let tombstones: &str = "tombstones";
    let ordinal: &str = "ordinal-";
    if same_bytes(role, forward.as_bytes()) || same_bytes(role, tombstones.as_bytes()) {
        return true;
    }
    let prefix: &[u8] = ordinal.as_bytes();
    if !has_prefix(role, prefix) || role.len() - prefix.len() != 8 {
        return false;
    }
    let digits: &[u8] = slice_subrange(role, prefix.len(), role.len());
    assert(digits@ =~= role@.skip(prefix@.len() as int));
    match parse_digits(digits) {
        Some(_) => true,
        None => {
            proof {
                if all_digits(digits@) {
                    lemma_eight_digits(digits@);
                }
            }
            false
        },
    }
}

proof fn lemma_eight_digits(bytes: Seq<u8>)
    requires
        bytes.len() == 8,
        all_digits(bytes),
    ensures
        digits_value(bytes) <= 99_999_999,
{
    assert(48 <= bytes[0] <= 57);
    assert(48 <= bytes[1] <= 57);
    assert(48 <= bytes[2] <= 57);
    assert(48 <= bytes[3] <= 57);
    assert(48 <= bytes[4] <= 57);
    assert(48 <= bytes[5] <= 57);
    assert(48 <= bytes[6] <= 57);
    assert(48 <= bytes[7] <= 57);
    reveal_with_fuel(digits_value, 9);
}

/// Whether a byte string is the name of a temporary: its role, and a nonce of
/// 32 lowercase hexadecimal digits.
pub open spec fn is_temporary_name(name: Seq<u8>) -> bool {
    exists|role: Seq<u8>, nonce: Seq<u8>| #[trigger] temporary_parts(name, role, nonce)
}

/// Whether a temporary has this role and nonce.
pub open spec fn temporary_parts(name: Seq<u8>, role: Seq<u8>, nonce: Seq<u8>) -> bool {
    &&& name == encode_utf8(".v4-"@) + role + seq![45u8] + nonce + encode_utf8(".tmp"@)
    &&& is_role(role)
    &&& nonce.len() == 32
    &&& all_lower_hex(nonce)
}

/// Whether a byte string is one of the prefixes of an artifact name.
pub open spec fn is_artifact_prefix(prefix: Seq<u8>) -> bool {
    ||| prefix == encode_utf8("forward-v4-"@)
    ||| prefix == encode_utf8("ordinal-v4-"@)
    ||| prefix == encode_utf8("tombstones-v4-"@)
}

/// Whether an artifact has this prefix, generation text and digest.
pub open spec fn artifact_parts(
    name: Seq<u8>,
    prefix: Seq<u8>,
    generation: Seq<u8>,
    digest: Seq<u8>,
) -> bool {
    &&& name == prefix + generation + seq![45u8] + digest + encode_utf8(".uuidx"@)
    &&& is_generation(generation)
    &&& digest.len() == 16
    &&& all_lower_hex(digest)
}

/// Whether a byte string is the name of an artifact: its kind, its nonzero
/// generation, and the first 16 digits of its digest.
pub open spec fn is_artifact_name(name: Seq<u8>) -> bool {
    exists|prefix: Seq<u8>, generation: Seq<u8>, digest: Seq<u8>|
        is_artifact_prefix(prefix) && #[trigger] artifact_parts(name, prefix, generation, digest)
}

/// Whether a text is a private ordinal name.
pub open spec fn is_private_v4_name(name: Seq<char>) -> bool {
    is_temporary_name(encode_utf8(name)) || is_artifact_name(encode_utf8(name))
}

fn check_temporary(name: &[u8]) -> (yes: bool)
    ensures
        yes == is_temporary_name(name@),
{
    let open: &str = ".v4-";
    let close: &str = ".tmp";
    let head: &[u8] = open.as_bytes();
    let tail: &[u8] = close.as_bytes();
    let ghost whole = name@;
    let ghost h = head@.len() as int;
    let ghost t = tail@.len() as int;
    proof {
        if is_temporary_name(whole) {
            let (role, nonce) = choose|role: Seq<u8>, nonce: Seq<u8>| #[trigger]
                temporary_parts(whole, role, nonce);
            assert(whole.len() == h + role.len() + 1 + 32 + t);
            assert(whole.take(h) =~= head@);
            assert(whole.skip(whole.len() - t) =~= tail@);
            assert(whole[h + role.len()] == 45);
            assert(whole.subrange(h + role.len() + 1, h + role.len() + 33) =~= nonce);
            assert(whole.subrange(h, h + role.len()) =~= role);
        }
    }
    if !has_prefix(name, head) || !has_suffix(name, tail) || name.len() < tail.len() || name.len()
        - tail.len() < head.len() || name.len() - tail.len() - head.len() < 33 {
        return false;
    }
    let nonce_end: usize = name.len() - tail.len();
    let nonce_start: usize = nonce_end - 32;
    let dash: usize = nonce_start - 1;
    if name[dash] != 45 {
        return false;
    }
    let nonce: &[u8] = slice_subrange(name, nonce_start, nonce_end);
    let role: &[u8] = slice_subrange(name, head.len(), dash);
    let yes: bool = only_lower_hex(nonce) && check_role(role);
    proof {
        if yes {
            assert(whole =~= head@ + role@ + seq![45u8] + nonce@ + tail@);
            assert(temporary_parts(whole, role@, nonce@));
        }
    }
    yes
}

fn check_artifact(name: &[u8], prefix: &[u8]) -> (yes: bool)
    ensures
        yes == exists|generation: Seq<u8>, digest: Seq<u8>| #[trigger]
            artifact_parts(name@, prefix@, generation, digest),
{
    let close: &str = ".uuidx";
    let tail: &[u8] = close.as_bytes();
    let ghost whole = name@;
    let ghost h = prefix@.len() as int;
    let ghost t = tail@.len() as int;
    proof {
        if exists|generation: Seq<u8>, digest: Seq<u8>| #[trigger]
            artifact_parts(whole, prefix@, generation, digest) {
            let (generation, digest) = choose|generation: Seq<u8>, digest: Seq<u8>| #[trigger]
                artifact_parts(whole, prefix@, generation, digest);
            let g = generation.len() as int;
            assert(whole.len() == h + g + 1 + 16 + t);
            assert(whole.take(h) =~= prefix@);
            assert(whole.skip(whole.len() - t) =~= tail@);
            assert(whole[h + g] == 45);
            assert(whole.subrange(h + g + 1, h + g + 17) =~= digest);
            assert(whole.subrange(h, h + g) =~= generation);
        }
    }
    if !has_prefix(name, prefix) || !has_suffix(name, tail) || name.len() < tail.len()
        || name.len() - tail.len() < prefix.len() || name.len() - tail.len() - prefix.len() < 17 {
        return false;
    }
    let digest_end: usize = name.len() - tail.len();
    let digest_start: usize = digest_end - 16;
    let dash: usize = digest_start - 1;
    if name[dash] != 45 {
        return false;
    }
    let digest: &[u8] = slice_subrange(name, digest_start, digest_end);
    let generation: &[u8] = slice_subrange(name, prefix.len(), dash);
    let yes: bool = only_lower_hex(digest) && canonical_generation(generation);
    proof {
        if yes {
            assert(whole =~= prefix@ + generation@ + seq![45u8] + digest@ + tail@);
            assert(artifact_parts(whole, prefix@, generation@, digest@));
        }
    }
    yes
}

/// Whether a text is a private ordinal name.
pub fn is_exact_private_v4_name(name: &str) -> (yes: bool)
    ensures
        yes == is_private_v4_name(name@),
{
    let bytes: &[u8] = name.as_bytes();
    let forward: &str = "forward-v4-";
    let ordinal: &str = "ordinal-v4-";
    let tombstones: &str = "tombstones-v4-";
    check_temporary(bytes) || check_artifact(bytes, forward.as_bytes()) || check_artifact(
        bytes,
        ordinal.as_bytes(),
    ) || check_artifact(bytes, tombstones.as_bytes())
}

} // verus!
