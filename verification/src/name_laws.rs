//! The names that are written are the names that are recognised.
use vstd::prelude::*;
use vstd::utf8::encode_utf8;

use crate::bytes::{
    all_lower_hex, ascii, decimal_text, hex_text, is_lower_hex, lemma_ascii_utf8, lemma_hex_text,
    starts_with,
};
use crate::digest::{sha256_digest, sha256_hex};
use crate::maintenance::{canonical_run_name, is_hex, is_v4_stem, run_name_parts, v4_stem_parts};
use crate::private_names::{
    artifact_parts, is_artifact_prefix, is_generation, is_private_v4_name, lemma_decimal_value,
};
use crate::references::lemma_utf8_joined;
use crate::runs::run_name;

verus! {

/// The bytes of a written name are those of its parts.
proof fn lemma_name_bytes(prefix: Seq<char>, generation: u64, content: Seq<u8>)
    requires
        sha256_digest(content).len() == 32,
    ensures
        ({
            let digest = hex_text(sha256_digest(content)).take(16);
            &&& encode_utf8(run_name(prefix, generation, content)) == encode_utf8(prefix)
                + seq![45u8] + decimal_text(generation as nat) + seq![45u8] + digest + encode_utf8(
                ".uuidx"@,
            )
            &&& digest.len() == 16
            &&& all_lower_hex(digest)
        }),
{
    let number = decimal_text(generation as nat);
    let whole = hex_text(sha256_digest(content));
    let digest = whole.take(16);
    lemma_decimal_value(generation as nat);
    lemma_hex_text(sha256_digest(content));
    assert forall|i: int| 0 <= i < number.len() implies #[trigger] number[i] < 128 by {
        assert(48 <= number[i] <= 57);
    }
    lemma_ascii_utf8(number);
    assert forall|i: int| 0 <= i < digest.len() implies #[trigger] is_lower_hex(digest[i]) by {
        assert(is_lower_hex(whole[i]));
    }
    assert forall|i: int| 0 <= i < digest.len() implies #[trigger] digest[i] < 128 by {
        assert(is_lower_hex(digest[i]));
    }
    lemma_ascii_utf8(digest);
    assert(sha256_hex(content).take(16) =~= ascii(digest));
    reveal_strlit("-");
    let dash = seq![45u8];
    assert("-"@ =~= ascii(dash));
    lemma_ascii_utf8(dash);
    let a = prefix + "-"@;
    let b = a + ascii(number);
    let c = b + "-"@;
    let d = c + ascii(digest);
    lemma_utf8_joined(prefix, "-"@);
    lemma_utf8_joined(a, ascii(number));
    lemma_utf8_joined(b, "-"@);
    lemma_utf8_joined(c, ascii(digest));
    lemma_utf8_joined(d, ".uuidx"@);
}

/// The name of an ordinal artifact of a nonzero generation is a private name, and a
/// name that an index file can have.
pub proof fn lemma_ordinal_names(prefix: Seq<char>, generation: u64, content: Seq<u8>)
    requires
        prefix == "forward-v4"@ || prefix == "ordinal-v4"@ || prefix == "tombstones-v4"@,
        generation != 0,
        sha256_digest(content).len() == 32,
    ensures
        is_private_v4_name(run_name(prefix, generation, content)),
        canonical_run_name(run_name(prefix, generation, content)),
{
    let name = run_name(prefix, generation, content);
    let number = decimal_text(generation as nat);
    let digest = hex_text(sha256_digest(content)).take(16);
    let dash = seq![45u8];
    let kind = encode_utf8(prefix);
    lemma_name_bytes(prefix, generation, content);
    lemma_decimal_value(generation as nat);
    assert(48 <= number[0] <= 57);
    let stem = kind + dash + number;
    assert(v4_stem_parts(stem, kind, number));
    assert(is_v4_stem(stem));
    assert(run_name_parts(encode_utf8(name), stem, digest));
    reveal_strlit("-");
    assert("-"@ =~= ascii(dash));
    lemma_ascii_utf8(dash);
    lemma_utf8_joined(prefix, "-"@);
    reveal_strlit("forward-v4");
    reveal_strlit("forward-v4-");
    reveal_strlit("ordinal-v4");
    reveal_strlit("ordinal-v4-");
    reveal_strlit("tombstones-v4");
    reveal_strlit("tombstones-v4-");
    assert("forward-v4"@ + "-"@ =~= "forward-v4-"@);
    assert("ordinal-v4"@ + "-"@ =~= "ordinal-v4-"@);
    assert("tombstones-v4"@ + "-"@ =~= "tombstones-v4-"@);
    assert(is_artifact_prefix(kind + dash));
    assert(is_generation(number));
    assert(artifact_parts(encode_utf8(name), kind + dash, number, digest));
}

/// The name of a run file is a name that an index file can have.
pub proof fn lemma_run_names(prefix: Seq<char>, generation: u64, content: Seq<u8>)
    requires
        starts_with(encode_utf8(prefix), encode_utf8("identities-v5"@)) || starts_with(
            encode_utf8(prefix),
            encode_utf8("node-surrogates-v5"@),
        ),
        sha256_digest(content).len() == 32,
    ensures
        canonical_run_name(run_name(prefix, generation, content)),
{
    let name = run_name(prefix, generation, content);
    let digest = hex_text(sha256_digest(content)).take(16);
    lemma_name_bytes(prefix, generation, content);
    let kind = encode_utf8(prefix);
    let stem = kind + seq![45u8] + decimal_text(generation as nat);
    assert forall|i: int| 0 <= i < digest.len() implies is_hex(#[trigger] digest[i]) by {
        assert(is_lower_hex(digest[i]));
    }
    if starts_with(kind, encode_utf8("identities-v5"@)) {
        let opening = encode_utf8("identities-v5"@);
        assert(stem.take(opening.len() as int) =~= kind.take(opening.len() as int));
    } else {
        let opening = encode_utf8("node-surrogates-v5"@);
        assert(stem.take(opening.len() as int) =~= kind.take(opening.len() as int));
    }
    assert(run_name_parts(encode_utf8(name), stem, digest));
}

/// Whether a byte string holds a part at a place.
pub open spec fn holds_at(bytes: Seq<u8>, at: int, part: Seq<u8>) -> bool {
    0 <= at && at + part.len() <= bytes.len() && bytes.subrange(at, at + part.len()) == part
}

/// A name that an index file can have opens with one of the five kinds of file and
/// closes with a dash, 16 hexadecimal digits and the suffix of an index file.
pub proof fn lemma_canonical_names(name: Seq<char>)
    requires
        canonical_run_name(name),
    ensures
        ({
            let bytes = encode_utf8(name);
            let digits = bytes.len() - encode_utf8(".uuidx"@).len() - 16;
            &&& digits > 0
            &&& holds_at(bytes, digits + 16, encode_utf8(".uuidx"@))
            &&& forall|i: int| digits <= i < digits + 16 ==> is_hex(#[trigger] bytes[i])
            &&& bytes[digits - 1] == 45
            &&& {
                ||| holds_at(bytes, 0, encode_utf8("identities-v5"@))
                ||| holds_at(bytes, 0, encode_utf8("node-surrogates-v5"@))
                ||| holds_at(bytes, 0, encode_utf8("forward-v4"@))
                ||| holds_at(bytes, 0, encode_utf8("ordinal-v4"@))
                ||| holds_at(bytes, 0, encode_utf8("tombstones-v4"@))
            }
        }),
{
    let bytes = encode_utf8(name);
    let (stem, digest) = choose|stem: Seq<u8>, digest: Seq<u8>| #[trigger]
        run_name_parts(bytes, stem, digest);
    let suffix = encode_utf8(".uuidx"@);
    let digits = bytes.len() - suffix.len() - 16;
    assert(digits == stem.len() + 1);
    assert(bytes.subrange(digits + 16, digits + 16 + suffix.len()) =~= suffix);
    assert forall|i: int| digits <= i < digits + 16 implies is_hex(#[trigger] bytes[i]) by {
        assert(bytes[i] == digest[i - digits]);
        assert(is_lower_hex(digest[i - digits]) || is_hex(digest[i - digits]));
    }
    assert(bytes[digits - 1] == 45);
    if is_v4_stem(stem) {
        let (kind, generation) = choose|kind: Seq<u8>, generation: Seq<u8>| #[trigger]
            v4_stem_parts(stem, kind, generation);
        assert(bytes.subrange(0, kind.len() as int) =~= kind);
        assert(holds_at(bytes, 0, kind));
    } else {
        let first = encode_utf8("identities-v5"@);
        let second = encode_utf8("node-surrogates-v5"@);
        if starts_with(stem, first) {
            assert(bytes.subrange(0, first.len() as int) =~= stem.take(first.len() as int));
            assert(holds_at(bytes, 0, first));
        } else {
            assert(bytes.subrange(0, second.len() as int) =~= stem.take(second.len() as int));
            assert(holds_at(bytes, 0, second));
        }
    }
}

} // verus!
