//! Canonical JSON forms of texts, numbers, UUIDs and lists, as byte strings.
//!
//! Each form has an encoding and a strict decoder. The decoder takes the form
//! from the front of its input, and accepts exactly the encoding.
use vstd::prelude::*;
use vstd::slice::*;
use vstd::string::*;
use vstd::utf8::*;

use crate::bytes::{
    all_ascii, ascii, ascii_string, be_bytes, be_value, decimal_codes, decimal_text, has_prefix,
    hex_codes, hex_digit, hex_text, is_lower_hex, lemma_ascii_utf8, lemma_be_bytes_len,
    lemma_be_value_of_bytes, lemma_hex_text, lemma_pow256_words, push_all, push_be, read_be,
    same_bytes, starts_with,
};
use crate::private_names::{all_digits, digits_value, lemma_decimal_value, parse_digits};

verus! {

/// What is left of the input after a literal.
pub open spec fn strip(input: Seq<u8>, literal: Seq<u8>) -> Option<Seq<u8>> {
    if starts_with(input, literal) {
        Some(input.skip(literal.len() as int))
    } else {
        None
    }
}

/// A literal is taken from the front, and nothing else is.
pub proof fn lemma_strip(literal: Seq<u8>, rest: Seq<u8>)
    ensures
        strip(literal + rest, literal) == Some(rest),
{
    assert((literal + rest).take(literal.len() as int) =~= literal);
    assert((literal + rest).skip(literal.len() as int) =~= rest);
}

/// What is left after a literal is what stood behind it.
pub proof fn lemma_stripped(input: Seq<u8>, literal: Seq<u8>)
    ensures
        strip(input, literal) matches Some(rest) ==> input == literal + rest,
{
    if starts_with(input, literal) {
        assert(input =~= literal + input.skip(literal.len() as int));
    }
}

/// Concatenation is associative.
pub proof fn lemma_joined(a: Seq<u8>, b: Seq<u8>, c: Seq<u8>)
    ensures
        (a + b) + c == a + (b + c),
{
    assert((a + b) + c =~= a + (b + c));
}

fn tail_of<'a>(input: &'a [u8], start: usize) -> (rest: &'a [u8])
    requires
        start <= input@.len(),
    ensures
        rest@ == input@.skip(start as int),
{
    let rest: &'a [u8] = slice_subrange(input, start, input.len());
    assert(rest@ =~= input@.skip(start as int));
    rest
}

/// Take a literal from the front.
pub fn take_literal<'a>(input: &'a [u8], literal: &[u8]) -> (rest: Option<&'a [u8]>)
    ensures
        match rest {
            Some(rest) => strip(input@, literal@) == Some(rest@),
            None => strip(input@, literal@) is None,
        },
{
    if has_prefix(input, literal) {
        Some(tail_of(input, literal.len()))
    } else {
        None
    }
}

/// Whether a byte stands for itself in a JSON text.
pub open spec fn is_plain(byte: u8) -> bool {
    32 <= byte < 127 && byte != 34 && byte != 92
}

/// Whether every byte stands for itself.
pub open spec fn all_plain(bytes: Seq<u8>) -> bool {
    forall|i: int| 0 <= i < bytes.len() ==> is_plain(#[trigger] bytes[i])
}

/// Whether every character of a text stands for itself.
pub open spec fn plain_text(text: Seq<char>) -> bool {
    all_plain(encode_utf8(text))
}

/// How many bytes at the front stand for themselves.
pub open spec fn plain_run(input: Seq<u8>) -> nat
    decreases input.len(),
{
    if input.len() == 0 || !is_plain(input[0]) {
        0
    } else {
        1 + plain_run(input.skip(1))
    }
}

proof fn lemma_plain_run(input: Seq<u8>, n: nat)
    requires
        n <= input.len(),
        forall|i: int| 0 <= i < n ==> is_plain(#[trigger] input[i]),
        n < input.len() ==> !is_plain(input[n as int]),
    ensures
        plain_run(input) == n,
    decreases n,
{
    if n > 0 {
        let rest = input.skip(1);
        assert forall|i: int| 0 <= i < n - 1 implies is_plain(#[trigger] rest[i]) by {
            assert(rest[i] == input[i + 1]);
        }
        if n < input.len() {
            assert(rest[n - 1] == input[n as int]);
        }
        assert(is_plain(input[0]));
        lemma_plain_run(rest, (n - 1) as nat);
    }
}

/// A text with its closing quote.
pub open spec fn text_form(text: Seq<char>) -> Seq<u8> {
    encode_utf8(text) + seq![34u8]
}

/// Take a text with its closing quote.
pub open spec fn decode_text(input: Seq<u8>) -> Option<(Seq<char>, Seq<u8>)> {
    let n = plain_run(input) as int;
    if n < input.len() && input[n] == 34 {
        Some((ascii(input.take(n)), input.skip(n + 1)))
    } else {
        None
    }
}

proof fn lemma_run_plain(input: Seq<u8>)
    ensures
        plain_run(input) <= input.len(),
        all_plain(input.take(plain_run(input) as int)),
    decreases input.len(),
{
    if input.len() > 0 && is_plain(input[0]) {
        let rest = input.skip(1);
        lemma_run_plain(rest);
        let run = input.take(plain_run(input) as int);
        assert forall|i: int| 0 <= i < run.len() implies is_plain(#[trigger] run[i]) by {
            if i > 0 {
                assert(rest.take(plain_run(rest) as int)[i - 1] == run[i]);
            }
        }
    }
}

/// A text comes back from its form.
pub proof fn lemma_text_read(text: Seq<char>, rest: Seq<u8>)
    requires
        plain_text(text),
    ensures
        decode_text(text_form(text) + rest) == Some((text, rest)),
{
    let bytes = encode_utf8(text);
    let input = text_form(text) + rest;
    let n = bytes.len();
    assert forall|i: int| 0 <= i < n implies is_plain(#[trigger] input[i]) by {
        assert(input[i] == bytes[i]);
    }
    assert(input[n as int] == 34);
    lemma_plain_run(input, n);
    assert(input.take(n as int) =~= bytes);
    assert(input.skip(n + 1int) =~= rest);
    assert(all_ascii(bytes)) by {
        assert forall|i: int| 0 <= i < bytes.len() implies #[trigger] bytes[i] < 128 by {
            assert(is_plain(bytes[i]));
        }
    }
    lemma_ascii_utf8(bytes);
    encode_utf8_decode_utf8(text);
}

/// What is taken as a text is its form.
pub proof fn lemma_text_taken(input: Seq<u8>)
    ensures
        decode_text(input) matches Some((text, rest)) ==> plain_text(text) && input == text_form(
            text,
        ) + rest,
{
    let n = plain_run(input) as int;
    lemma_run_plain(input);
    if n < input.len() && input[n] == 34 {
        let bytes = input.take(n);
        assert(all_ascii(bytes)) by {
            assert forall|i: int| 0 <= i < bytes.len() implies #[trigger] bytes[i] < 128 by {
                assert(is_plain(bytes[i]));
            }
        }
        lemma_ascii_utf8(bytes);
        assert(input =~= text_form(ascii(bytes)) + input.skip(n + 1));
    }
}

/// Take a text with its closing quote.
pub fn take_text<'a>(input: &'a [u8]) -> (taken: Option<(String, &'a [u8])>)
    ensures
        match taken {
            Some((text, rest)) => decode_text(input@) == Some((text@, rest@)),
            None => decode_text(input@) is None,
        },
{
    let mut bytes: Vec<u8> = Vec::new();
    let mut i: usize = 0;
    while i < input.len()
        invariant
            i <= input@.len(),
            bytes@ == input@.take(i as int),
            all_plain(bytes@),
        decreases input.len() - i,
    {
        let byte: u8 = input[i];
        if !(32 <= byte && byte < 127 && byte != 34 && byte != 92) {
            proof {
                assert forall|k: int| 0 <= k < i implies is_plain(#[trigger] input@[k]) by {
                    assert(bytes@[k] == input@[k]);
                }
                lemma_plain_run(input@, i as nat);
            }
            if byte != 34 {
                return None;
            }
            assert(all_ascii(bytes@)) by {
                assert forall|k: int| 0 <= k < bytes@.len() implies #[trigger] bytes@[k] < 128 by {
                    assert(is_plain(bytes@[k]));
                }
            }
            return Some((ascii_string(bytes), tail_of(input, i + 1)));
        }
        let ghost before = bytes@;
        bytes.push(byte);
        i = i + 1;
        assert(bytes@ =~= input@.take(i as int));
        assert forall|k: int| 0 <= k < bytes@.len() implies is_plain(#[trigger] bytes@[k]) by {
            if k < before.len() {
                assert(is_plain(before[k]));
            }
        }
    }
    proof {
        assert forall|k: int| 0 <= k < i implies is_plain(#[trigger] input@[k]) by {
            assert(bytes@[k] == input@[k]);
        }
        lemma_plain_run(input@, i as nat);
    }
    None
}

/// How many bytes at the front are decimal digits.
pub open spec fn digit_run(input: Seq<u8>) -> nat
    decreases input.len(),
{
    if input.len() == 0 || input[0] < 48 || input[0] > 57 {
        0
    } else {
        1 + digit_run(input.skip(1))
    }
}

proof fn lemma_digit_run(input: Seq<u8>, n: nat)
    requires
        n <= input.len(),
        forall|i: int| 0 <= i < n ==> 48 <= #[trigger] input[i] <= 57,
        n < input.len() ==> input[n as int] < 48 || input[n as int] > 57,
    ensures
        digit_run(input) == n,
    decreases n,
{
    if n > 0 {
        let rest = input.skip(1);
        assert forall|i: int| 0 <= i < n - 1 implies 48 <= #[trigger] rest[i] <= 57 by {
            assert(rest[i] == input[i + 1]);
        }
        if n < input.len() {
            assert(rest[n - 1] == input[n as int]);
        }
        assert(48 <= input[0] <= 57);
        lemma_digit_run(rest, (n - 1) as nat);
    }
}

proof fn lemma_digit_run_len(input: Seq<u8>)
    ensures
        digit_run(input) <= input.len(),
    decreases input.len(),
{
    if input.len() > 0 && 48 <= input[0] <= 57 {
        lemma_digit_run_len(input.skip(1));
    }
}

/// Take a number in decimal, without leading zeros.
pub open spec fn decode_number(input: Seq<u8>) -> Option<(u32, Seq<u8>)> {
    let n = digit_run(input) as int;
    let digits = input.take(n);
    let value = digits_value(digits);
    if 0 <= value <= u32::MAX && decimal_text(value as nat) == digits {
        Some((value as u32, input.skip(n)))
    } else {
        None
    }
}

/// A number comes back from its digits.
pub proof fn lemma_number_read(value: u32, rest: Seq<u8>)
    requires
        rest.len() > 0,
        rest[0] < 48 || rest[0] > 57,
    ensures
        decode_number(decimal_text(value as nat) + rest) == Some((value, rest)),
{
    let digits = decimal_text(value as nat);
    let input = digits + rest;
    lemma_decimal_value(value as nat);
    assert forall|i: int| 0 <= i < digits.len() implies 48 <= #[trigger] input[i] <= 57 by {
        assert(input[i] == digits[i]);
    }
    assert(input[digits.len() as int] == rest[0]);
    lemma_digit_run(input, digits.len());
    assert(input.take(digits.len() as int) =~= digits);
    assert(input.skip(digits.len() as int) =~= rest);
}

/// What is taken as a number is its digits.
pub proof fn lemma_number_taken(input: Seq<u8>)
    ensures
        decode_number(input) matches Some((value, rest)) ==> input == decimal_text(value as nat)
            + rest,
{
    let n = digit_run(input) as int;
    lemma_digit_run_len(input);
    assert(input =~= input.take(n) + input.skip(n));
}

/// Take a number in decimal, without leading zeros.
pub fn take_number<'a>(input: &'a [u8]) -> (taken: Option<(u32, &'a [u8])>)
    ensures
        match taken {
            Some((value, rest)) => decode_number(input@) == Some((value, rest@)),
            None => decode_number(input@) is None,
        },
{
    let mut n: usize = 0;
    while n < input.len() && input[n] >= 48 && input[n] <= 57
        invariant
            n <= input@.len(),
            forall|i: int| 0 <= i < n ==> 48 <= #[trigger] input@[i] <= 57,
        decreases input.len() - n,
    {
        n = n + 1;
    }
    proof {
        lemma_digit_run(input@, n as nat);
    }
    let digits: &[u8] = slice_subrange(input, 0, n);
    assert(digits@ =~= input@.take(n as int));
    assert(all_digits(digits@)) by {
        assert forall|i: int| 0 <= i < digits@.len() implies 48 <= #[trigger] digits@[i] <= 57 by {
            assert(digits@[i] == input@[i]);
        }
    }
    match parse_digits(digits) {
        Some(value) => {
            if value > 4_294_967_295 {
                return None;
            }
            let codes: Vec<u8> = decimal_codes(value);
            if same_bytes(codes.as_slice(), digits) {
                Some((value as u32, tail_of(input, n)))
            } else {
                None
            }
        },
        None => None,
    }
}

/// The 32 digits of a UUID in groups.
pub open spec fn grouped(digits: Seq<u8>) -> Seq<u8> {
    digits.subrange(0, 8) + seq![45u8] + digits.subrange(8, 12) + seq![45u8] + digits.subrange(
        12,
        16,
    ) + seq![45u8] + digits.subrange(16, 20) + seq![45u8] + digits.subrange(20, 32)
}

/// The digits of a UUID without the hyphens of their groups.
pub open spec fn ungrouped(text: Seq<u8>) -> Seq<u8> {
    text.subrange(0, 8) + text.subrange(9, 13) + text.subrange(14, 18) + text.subrange(19, 23)
        + text.subrange(24, 36)
}

/// A UUID in lowercase hexadecimal, with hyphens.
pub open spec fn uuid_text(uuid: u128) -> Seq<u8> {
    grouped(hex_text(be_bytes(uuid as nat, 16)))
}

/// A UUID with its closing quote.
pub open spec fn uuid_form(uuid: u128) -> Seq<u8> {
    uuid_text(uuid) + seq![34u8]
}

/// The number that a hexadecimal digit stands for; zero for another byte.
pub open spec fn nibble(digit: u8) -> int {
    if 48 <= digit <= 57 {
        digit - 48
    } else if 97 <= digit <= 102 {
        digit - 87
    } else {
        0
    }
}

/// The bytes that hexadecimal digits stand for.
pub open spec fn unhex(digits: Seq<u8>) -> Seq<u8> {
    Seq::new(
        digits.len() / 2,
        |i: int| (nibble(digits[2 * i]) * 16 + nibble(digits[2 * i + 1])) as u8,
    )
}

/// The UUID that a text of 36 bytes stands for, if it does.
pub open spec fn uuid_value(text: Seq<u8>) -> u128 {
    be_value(unhex(ungrouped(text))) as u128
}

/// Take a UUID with its closing quote.
pub open spec fn decode_uuid(input: Seq<u8>) -> Option<(u128, Seq<u8>)> {
    let text = input.take(36);
    if input.len() >= 37 && input[36] == 34 && uuid_text(uuid_value(text)) == text {
        Some((uuid_value(text), input.skip(37)))
    } else {
        None
    }
}

proof fn lemma_unhex(bytes: Seq<u8>)
    ensures
        unhex(hex_text(bytes)) == bytes,
{
    let digits = hex_text(bytes);
    assert forall|i: int| 0 <= i < bytes.len() implies #[trigger] unhex(digits)[i] == bytes[i] by {
        let byte = bytes[i] as int;
        assert((2 * i) % 2 == 0 && (2 * i) / 2 == i && (2 * i + 1) % 2 == 1 && (2 * i + 1) / 2
            == i);
        assert(digits[2 * i] == hex_digit(byte / 16));
        assert(digits[2 * i + 1] == hex_digit(byte % 16));
        assert(0 <= byte / 16 < 16 && 0 <= byte % 16 < 16);
        assert(nibble(hex_digit(byte / 16)) == byte / 16);
        assert(nibble(hex_digit(byte % 16)) == byte % 16);
        assert(byte == (byte / 16) * 16 + byte % 16);
    }
    assert(unhex(digits) =~= bytes);
}

proof fn lemma_uuid_text(uuid: u128)
    ensures
        uuid_text(uuid).len() == 36,
        uuid_value(uuid_text(uuid)) == uuid,
{
    let bytes = be_bytes(uuid as nat, 16);
    let digits = hex_text(bytes);
    lemma_be_bytes_len(uuid as nat, 16);
    lemma_hex_text(bytes);
    lemma_pow256_words();
    lemma_be_value_of_bytes(uuid as nat, 16);
    assert(ungrouped(grouped(digits)) =~= digits);
    lemma_unhex(bytes);
}

/// A UUID comes back from its form.
pub proof fn lemma_uuid_read(uuid: u128, rest: Seq<u8>)
    ensures
        decode_uuid(uuid_form(uuid) + rest) == Some((uuid, rest)),
{
    let input = uuid_form(uuid) + rest;
    lemma_uuid_text(uuid);
    assert(input.take(36) =~= uuid_text(uuid));
    assert(input.skip(37) =~= rest);
}

/// What is taken as a UUID is its form.
pub proof fn lemma_uuid_taken(input: Seq<u8>)
    ensures
        decode_uuid(input) matches Some((uuid, rest)) ==> input == uuid_form(uuid) + rest,
{
    if decode_uuid(input) is Some {
        let uuid = (decode_uuid(input)->0).0;
        lemma_uuid_text(uuid);
        assert(input =~= uuid_form(uuid) + input.skip(37));
    }
}

/// Append a UUID in lowercase hexadecimal, with hyphens.
pub fn push_uuid(out: &mut Vec<u8>, uuid: u128)
    ensures
        final(out)@ == old(out)@ + uuid_text(uuid),
{
    let ghost before = out@;
    let mut bytes: Vec<u8> = Vec::new();
    push_be(&mut bytes, uuid, 16);
    proof {
        lemma_be_bytes_len(uuid as nat, 16);
        lemma_hex_text(bytes@);
        assert(bytes@ =~= be_bytes(uuid as nat, 16));
    }
    let digits: Vec<u8> = hex_codes(bytes.as_slice());
    let all: &[u8] = digits.as_slice();
    push_all(out, slice_subrange(all, 0, 8));
    out.push(45);
    push_all(out, slice_subrange(all, 8, 12));
    out.push(45);
    push_all(out, slice_subrange(all, 12, 16));
    out.push(45);
    push_all(out, slice_subrange(all, 16, 20));
    out.push(45);
    push_all(out, slice_subrange(all, 20, 32));
    assert(out@ =~= before + uuid_text(uuid));
}

fn nibble_of(digit: u8) -> (value: u8)
    ensures
        value == nibble(digit),
        value < 16,
{
    if 48 <= digit && digit <= 57 {
        digit - 48
    } else if 97 <= digit && digit <= 102 {
        digit - 87
    } else {
        0
    }
}

/// Take a UUID with its closing quote.
pub fn take_uuid<'a>(input: &'a [u8]) -> (taken: Option<(u128, &'a [u8])>)
    ensures
        match taken {
            Some((uuid, rest)) => decode_uuid(input@) == Some((uuid, rest@)),
            None => decode_uuid(input@) is None,
        },
{
    if input.len() < 37 || input[36] != 34 {
        return None;
    }
    let text: &[u8] = slice_subrange(input, 0, 36);
    assert(text@ =~= input@.take(36));
    let mut digits: Vec<u8> = Vec::new();
    push_all(&mut digits, slice_subrange(text, 0, 8));
    push_all(&mut digits, slice_subrange(text, 9, 13));
    push_all(&mut digits, slice_subrange(text, 14, 18));
    push_all(&mut digits, slice_subrange(text, 19, 23));
    push_all(&mut digits, slice_subrange(text, 24, 36));
    assert(digits@ =~= ungrouped(text@));
    let mut bytes: Vec<u8> = Vec::new();
    let mut i: usize = 0;
    while i < 16
        invariant
            i <= 16,
            digits@.len() == 32,
            bytes@.len() == i,
            bytes@ == unhex(digits@).take(i as int),
        decreases 16 - i,
    {
        let high: u8 = nibble_of(digits[2 * i]);
        let low: u8 = nibble_of(digits[2 * i + 1]);
        bytes.push(high * 16 + low);
        i = i + 1;
        assert(bytes@ =~= unhex(digits@).take(i as int));
    }
    assert(bytes@ =~= unhex(digits@));
    assert(bytes@.subrange(0, 16) =~= bytes@);
    let uuid: u128 = read_be(bytes.as_slice(), 0, 16);
    let mut again: Vec<u8> = Vec::new();
    push_uuid(&mut again, uuid);
    assert(again@ =~= uuid_text(uuid));
    if same_bytes(again.as_slice(), text) {
        Some((uuid, tail_of(input, 37)))
    } else {
        None
    }
}

/// A truth value.
pub open spec fn bool_form(value: bool) -> Seq<u8> {
    if value {
        seq![116u8, 114, 117, 101]
    } else {
        seq![102u8, 97, 108, 115, 101]
    }
}

/// Take a truth value.
pub open spec fn decode_bool(input: Seq<u8>) -> Option<(bool, Seq<u8>)> {
    match strip(input, bool_form(true)) {
        Some(rest) => Some((true, rest)),
        None => match strip(input, bool_form(false)) {
            Some(rest) => Some((false, rest)),
            None => None,
        },
    }
}

/// A truth value comes back from its form.
pub proof fn lemma_bool_read(value: bool, rest: Seq<u8>)
    ensures
        decode_bool(bool_form(value) + rest) == Some((value, rest)),
{
    let input = bool_form(value) + rest;
    lemma_strip(bool_form(value), rest);
    if !value {
        if starts_with(input, bool_form(true)) {
            assert(input.take(4)[0] == 116);
            assert(input[0] == 102);
        }
    }
}

/// What is taken as a truth value is its form.
pub proof fn lemma_bool_taken(input: Seq<u8>)
    ensures
        decode_bool(input) matches Some((value, rest)) ==> input == bool_form(value) + rest,
{
    lemma_stripped(input, bool_form(true));
    lemma_stripped(input, bool_form(false));
}

fn bool_codes(value: bool) -> (codes: Vec<u8>)
    ensures
        codes@ == bool_form(value),
{
    if value {
        vec![116, 114, 117, 101]
    } else {
        vec![102, 97, 108, 115, 101]
    }
}

/// Append a truth value.
pub fn push_bool(out: &mut Vec<u8>, value: bool)
    ensures
        final(out)@ == old(out)@ + bool_form(value),
{
    push_all(out, bool_codes(value).as_slice());
}

/// Take a truth value.
pub fn take_bool<'a>(input: &'a [u8]) -> (taken: Option<(bool, &'a [u8])>)
    ensures
        match taken {
            Some((value, rest)) => decode_bool(input@) == Some((value, rest@)),
            None => decode_bool(input@) is None,
        },
{
    match take_literal(input, bool_codes(true).as_slice()) {
        Some(rest) => Some((true, rest)),
        None => match take_literal(input, bool_codes(false).as_slice()) {
            Some(rest) => Some((false, rest)),
            None => None,
        },
    }
}

/// The form of an absent value.
pub open spec fn null_form() -> Seq<u8> {
    seq![110u8, 117, 108, 108]
}

/// Take an absent value.
pub fn take_null<'a>(input: &'a [u8]) -> (rest: Option<&'a [u8]>)
    ensures
        match rest {
            Some(rest) => strip(input@, null_form()) == Some(rest@),
            None => strip(input@, null_form()) is None,
        },
{
    let codes: Vec<u8> = vec![110, 117, 108, 108];
    assert(codes@ =~= null_form());
    take_literal(input, codes.as_slice())
}

/// Append an absent value.
pub fn push_null(out: &mut Vec<u8>)
    ensures
        final(out)@ == old(out)@ + null_form(),
{
    let codes: Vec<u8> = vec![110, 117, 108, 108];
    assert(codes@ =~= null_form());
    push_all(out, codes.as_slice());
}

/// The encoding of a text that may be absent.
pub open spec fn optional_text_form(text: Option<Seq<char>>) -> Seq<u8> {
    match text {
        Some(text) => seq![34u8] + text_form(text),
        None => null_form(),
    }
}

/// Take a text that may be absent.
pub open spec fn decode_optional_text(input: Seq<u8>) -> Option<(Option<Seq<char>>, Seq<u8>)> {
    match strip(input, null_form()) {
        Some(rest) => Some((None, rest)),
        None => match strip(input, seq![34u8]) {
            None => None,
            Some(next) => match decode_text(next) {
                Some((text, rest)) => Some((Some(text), rest)),
                None => None,
            },
        },
    }
}

/// The encoding of a UUID that may be absent.
pub open spec fn optional_uuid_form(uuid: Option<u128>) -> Seq<u8> {
    match uuid {
        Some(uuid) => seq![34u8] + uuid_form(uuid),
        None => null_form(),
    }
}

/// Take a UUID that may be absent.
pub open spec fn decode_optional_uuid(input: Seq<u8>) -> Option<(Option<u128>, Seq<u8>)> {
    match strip(input, null_form()) {
        Some(rest) => Some((None, rest)),
        None => match strip(input, seq![34u8]) {
            None => None,
            Some(next) => match decode_uuid(next) {
                Some((uuid, rest)) => Some((Some(uuid), rest)),
                None => None,
            },
        },
    }
}

pub(crate) proof fn lemma_not_null(rest: Seq<u8>)
    ensures
        strip(seq![34u8] + rest, null_form()) is None,
{
    let input = seq![34u8] + rest;
    if strip(input, null_form()) is Some {
        assert(input.take(4)[0] == 110);
        assert(input[0] == 34);
    }
}

pub(crate) proof fn lemma_optional_text_read(text: Option<Seq<char>>, rest: Seq<u8>)
    requires
        text matches Some(text) ==> plain_text(text),
    ensures
        decode_optional_text(optional_text_form(text) + rest) == Some((text, rest)),
{
    match text {
        Some(text) => {
            lemma_joined(seq![34u8], text_form(text), rest);
            lemma_not_null(text_form(text) + rest);
            lemma_strip(seq![34u8], text_form(text) + rest);
            lemma_text_read(text, rest);
        },
        None => {
            lemma_strip(null_form(), rest);
        },
    }
}

pub(crate) proof fn lemma_optional_text_taken(input: Seq<u8>)
    ensures
        decode_optional_text(input) matches Some((text, rest)) ==> input == optional_text_form(text)
            + rest && (text matches Some(text) ==> plain_text(text)),
{
    lemma_stripped(input, null_form());
    lemma_stripped(input, seq![34u8]);
    if decode_optional_text(input) is Some && strip(input, null_form()) is None {
        let next = strip(input, seq![34u8])->0;
        lemma_text_taken(next);
        let (text, rest) = decode_text(next)->0;
        lemma_joined(seq![34u8], text_form(text), rest);
    }
}

pub(crate) proof fn lemma_optional_uuid_read(uuid: Option<u128>, rest: Seq<u8>)
    ensures
        decode_optional_uuid(optional_uuid_form(uuid) + rest) == Some((uuid, rest)),
{
    match uuid {
        Some(uuid) => {
            lemma_joined(seq![34u8], uuid_form(uuid), rest);
            lemma_not_null(uuid_form(uuid) + rest);
            lemma_strip(seq![34u8], uuid_form(uuid) + rest);
            lemma_uuid_read(uuid, rest);
        },
        None => {
            lemma_strip(null_form(), rest);
        },
    }
}

pub(crate) proof fn lemma_optional_uuid_taken(input: Seq<u8>)
    ensures
        decode_optional_uuid(input) matches Some((uuid, rest)) ==> input == optional_uuid_form(uuid)
            + rest,
{
    lemma_stripped(input, null_form());
    lemma_stripped(input, seq![34u8]);
    if decode_optional_uuid(input) is Some && strip(input, null_form()) is None {
        let next = strip(input, seq![34u8])->0;
        lemma_uuid_taken(next);
        let (uuid, rest) = decode_uuid(next)->0;
        lemma_joined(seq![34u8], uuid_form(uuid), rest);
    }
}

pub(crate) fn push_optional_text(out: &mut Vec<u8>, text: &Option<String>)
    ensures
        final(out)@ == old(out)@ + optional_text_form(
            match text {
                Some(text) => Some(text@),
                None => None,
            },
        ),
{
    let ghost before = out@;
    match text {
        Some(text) => {
            out.push(34);
            push_all(out, text.as_str().as_bytes());
            out.push(34);
            assert(out@ =~= before + (seq![34u8] + text_form(text@)));
        },
        None => {
            push_null(out);
        },
    }
}

pub(crate) fn push_optional_uuid(out: &mut Vec<u8>, uuid: Option<u128>)
    ensures
        final(out)@ == old(out)@ + optional_uuid_form(uuid),
{
    let ghost before = out@;
    match uuid {
        Some(uuid) => {
            out.push(34);
            push_uuid(out, uuid);
            out.push(34);
            assert(out@ =~= before + (seq![34u8] + uuid_form(uuid)));
        },
        None => {
            push_null(out);
        },
    }
}

pub(crate) fn take_optional_text<'a>(input: &'a [u8]) -> (taken: Option<(Option<String>, &'a [u8])>)
    ensures
        match taken {
            Some((text, rest)) => decode_optional_text(input@) == Some(
                (
                    match text {
                        Some(text) => Some(text@),
                        None => None,
                    },
                    rest@,
                ),
            ),
            None => decode_optional_text(input@) is None,
        },
{
    match take_null(input) {
        Some(rest) => {
            return Some((None, rest));
        },
        None => {},
    }
    let quote: Vec<u8> = vec![34];
    assert(quote@ =~= seq![34u8]);
    match take_literal(input, quote.as_slice()) {
        Some(next) => match take_text(next) {
            Some((text, rest)) => Some((Some(text), rest)),
            None => None,
        },
        None => None,
    }
}

pub(crate) fn take_optional_uuid<'a>(input: &'a [u8]) -> (taken: Option<(Option<u128>, &'a [u8])>)
    ensures
        match taken {
            Some((uuid, rest)) => decode_optional_uuid(input@) == Some((uuid, rest@)),
            None => decode_optional_uuid(input@) is None,
        },
{
    match take_null(input) {
        Some(rest) => {
            return Some((None, rest));
        },
        None => {},
    }
    let quote: Vec<u8> = vec![34];
    assert(quote@ =~= seq![34u8]);
    match take_literal(input, quote.as_slice()) {
        Some(next) => match take_uuid(next) {
            Some((uuid, rest)) => Some((Some(uuid), rest)),
            None => None,
        },
        None => None,
    }
}

pub(crate) fn push_text(out: &mut Vec<u8>, text: &str)
    ensures
        final(out)@ == old(out)@ + encode_utf8(text@),
{
    push_all(out, text.as_bytes());
}

pub(crate) fn push_quoted(out: &mut Vec<u8>, text: &String)
    ensures
        final(out)@ == old(out)@ + text_form(text@),
{
    let ghost before = out@;
    push_all(out, text.as_str().as_bytes());
    out.push(34);
    assert(out@ =~= before + text_form(text@));
}

pub(crate) fn push_byte(out: &mut Vec<u8>, byte: u8)
    ensures
        final(out)@ == old(out)@ + seq![byte],
{
    let ghost before = out@;
    out.push(byte);
    assert(out@ =~= before + seq![byte]);
}

/// Whether a byte string ends with its only line feed.
pub open spec fn one_record(bytes: Seq<u8>) -> bool {
    bytes.len() > 0 && bytes.last() == 10 && one_line(bytes.drop_last())
}

/// Whether a byte string holds no line feed.
pub open spec fn one_line(bytes: Seq<u8>) -> bool {
    forall|i: int| 0 <= i < bytes.len() ==> #[trigger] bytes[i] != 10
}

/// Whether a byte string ends with its only line feed.
pub fn is_one_record(bytes: &[u8]) -> (yes: bool)
    ensures
        yes == one_record(bytes@),
{
    if bytes.len() == 0 || bytes[bytes.len() - 1] != 10 {
        return false;
    }
    let ghost body = bytes@.drop_last();
    let mut i: usize = 0;
    while i < bytes.len() - 1
        invariant
            i < bytes@.len(),
            body == bytes@.drop_last(),
            forall|k: int| 0 <= k < i ==> #[trigger] body[k] != 10,
        decreases bytes.len() - i,
    {
        if bytes[i] == 10 {
            assert(body[i as int] == 10);
            return false;
        }
        i = i + 1;
    }
    true
}

pub(crate) proof fn lemma_line(text: Seq<char>)
    requires
        forall|i: int| 0 <= i < text.len() ==> ' ' <= #[trigger] text[i] <= '~',
    ensures
        one_line(encode_utf8(text)),
{
    assert(is_ascii_chars(text));
    is_ascii_chars_encode_utf8(text);
    let bytes = encode_utf8(text);
    assert forall|i: int| 0 <= i < bytes.len() implies #[trigger] bytes[i] != 10 by {
        assert(bytes[i] == text[i] as u8);
    }
}

pub(crate) proof fn lemma_lines(a: Seq<u8>, b: Seq<u8>)
    requires
        one_line(a),
    ensures
        one_line(b) ==> one_line(a + b),
        one_record(b) ==> one_record(a + b),
{
    if one_line(b) {
        assert forall|i: int| 0 <= i < (a + b).len() implies #[trigger] (a + b)[i] != 10 by {
            if i < a.len() {
                assert(a[i] != 10);
            } else {
                assert(b[i - a.len()] != 10);
            }
        }
    }
    if one_record(b) {
        let all = (a + b).drop_last();
        assert forall|i: int| 0 <= i < all.len() implies #[trigger] all[i] != 10 by {
            if i < a.len() {
                assert(a[i] != 10);
            } else {
                assert(b.drop_last()[i - a.len()] != 10);
            }
        }
    }
}

pub(crate) proof fn lemma_text_line(text: Seq<char>)
    requires
        plain_text(text),
    ensures
        one_line(text_form(text)),
{
    let bytes = encode_utf8(text);
    let form = text_form(text);
    assert forall|i: int| 0 <= i < form.len() implies #[trigger] form[i] != 10 by {
        if i < bytes.len() {
            assert(is_plain(bytes[i]));
        }
    }
}

pub(crate) proof fn lemma_decimal_line(value: nat)
    ensures
        one_line(decimal_text(value)),
{
    lemma_decimal_value(value);
    let digits = decimal_text(value);
    assert forall|i: int| 0 <= i < digits.len() implies #[trigger] digits[i] != 10 by {
        assert(48 <= digits[i] <= 57);
    }
}

pub(crate) proof fn lemma_uuid_line(uuid: u128)
    ensures
        one_line(uuid_form(uuid)),
{
    let bytes = be_bytes(uuid as nat, 16);
    lemma_be_bytes_len(uuid as nat, 16);
    lemma_hex_text(bytes);
    let digits = hex_text(bytes);
    assert forall|i: int| 0 <= i < digits.len() implies #[trigger] digits[i] != 10 by {
        assert(is_lower_hex(digits[i]));
    }
    let form = uuid_form(uuid);
    assert(form.len() == 37);
    assert forall|i: int| 0 <= i < form.len() implies #[trigger] form[i] != 10 by {
        if i < 8 {
            assert(form[i] == digits[i]);
        } else if 8 < i < 13 {
            assert(form[i] == digits[i - 1]);
        } else if 13 < i < 18 {
            assert(form[i] == digits[i - 2]);
        } else if 18 < i < 23 {
            assert(form[i] == digits[i - 3]);
        } else if 23 < i < 36 {
            assert(form[i] == digits[i - 4]);
        }
    }
}

pub(crate) proof fn lemma_optional_lines(commit: Option<Seq<char>>, actor: Option<u128>)
    requires
        commit matches Some(commit) ==> plain_text(commit),
    ensures
        one_line(optional_text_form(commit)),
        one_line(optional_uuid_form(actor)),
{
    if let Some(commit) = commit {
        lemma_text_line(commit);
        lemma_lines(seq![34u8], text_form(commit));
    }
    if let Some(actor) = actor {
        lemma_uuid_line(actor);
        lemma_lines(seq![34u8], uuid_form(actor));
    }
}

} // verus!
