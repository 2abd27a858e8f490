//! Byte strings: fixed-width integers, lexicographic order, and the ASCII
//! texts (hexadecimal and decimal) that file names and digests are made of.
use vstd::prelude::*;
use vstd::slice::*;
use vstd::string::*;
use vstd::utf8::*;

verus! {

/// `256` to the power `n`: the number of byte strings of length `n`.
pub open spec fn pow256(n: nat) -> nat
    decreases n,
{
    if n == 0 {
        1
    } else {
        256 * pow256((n - 1) as nat)
    }
}

/// The number a byte string stands for, most significant byte first.
pub open spec fn be_value(bytes: Seq<u8>) -> nat
    decreases bytes.len(),
{
    if bytes.len() == 0 {
        0
    } else {
        be_value(bytes.drop_last()) * 256 + bytes.last() as nat
    }
}

/// `value` in `n` bytes, most significant byte first.
pub open spec fn be_bytes(value: nat, n: nat) -> Seq<u8>
    decreases n,
{
    if n == 0 {
        Seq::empty()
    } else {
        be_bytes(value / 256, (n - 1) as nat).push((value % 256) as u8)
    }
}

/// The number a byte string stands for, least significant byte first.
pub open spec fn le_value(bytes: Seq<u8>) -> nat {
    be_value(bytes.reverse())
}

/// `value` in `n` bytes, least significant byte first.
pub open spec fn le_bytes(value: nat, n: nat) -> Seq<u8> {
    be_bytes(value, n).reverse()
}

/// Lexicographic order on byte strings of one length: the first byte that
/// differs decides.
pub open spec fn lex_less(left: Seq<u8>, right: Seq<u8>) -> bool {
    exists|k: int|
        0 <= k < left.len() && k < right.len() && left.take(k) == right.take(k) && #[trigger] left[k]
            < right[k]
}

/// More bytes hold more numbers.
pub proof fn lemma_pow256_monotone(m: nat, n: nat)
    requires
        m <= n,
    ensures
        pow256(m) <= pow256(n),
        0 < pow256(m),
    decreases n,
{
    if m < n {
        lemma_pow256_monotone(m, (n - 1) as nat);
    } else if n > 0 {
        lemma_pow256_monotone((m - 1) as nat, (n - 1) as nat);
    }
}

/// The ranges of the machine words in bytes.
pub proof fn lemma_pow256_words()
    ensures
        pow256(4) == 0x1_0000_0000,
        pow256(8) == 0x1_0000_0000_0000_0000,
        pow256(16) == 0x1_0000_0000_0000_0000_0000_0000_0000_0000,
{
    reveal_with_fuel(pow256, 17);
}

/// A number of `n` bytes is below the power of `n` bytes.
pub proof fn lemma_be_value_bound(bytes: Seq<u8>)
    ensures
        be_value(bytes) < pow256(bytes.len()),
    decreases bytes.len(),
{
    if bytes.len() > 0 {
        lemma_be_value_bound(bytes.drop_last());
    }
}

/// Reading a fixed-width number back gives the number that was written.
pub proof fn lemma_be_value_of_bytes(value: nat, n: nat)
    requires
        value < pow256(n),
    ensures
        be_bytes(value, n).len() == n,
        be_value(be_bytes(value, n)) == value,
    decreases n,
{
    if n > 0 {
        lemma_be_value_of_bytes(value / 256, (n - 1) as nat);
        let bytes = be_bytes(value, n);
        assert(bytes.drop_last() =~= be_bytes(value / 256, (n - 1) as nat));
    }
}

/// A fixed-width number takes its width.
pub proof fn lemma_be_bytes_len(value: nat, n: nat)
    ensures
        be_bytes(value, n).len() == n,
    decreases n,
{
    if n > 0 {
        lemma_be_bytes_len(value / 256, (n - 1) as nat);
    }
}

/// Writing a fixed-width number gives the bytes it was read from.
pub proof fn lemma_be_bytes_of_value(bytes: Seq<u8>)
    ensures
        be_bytes(be_value(bytes), bytes.len()) == bytes,
    decreases bytes.len(),
{
    if bytes.len() > 0 {
        lemma_be_bytes_of_value(bytes.drop_last());
        assert(bytes =~= bytes.drop_last().push(bytes.last()));
    } else {
        assert(bytes =~= Seq::<u8>::empty());
    }
}

/// Numeric order of fixed-width big-endian numbers is the lexicographic
/// order of their bytes.
pub proof fn lemma_be_order(left: Seq<u8>, right: Seq<u8>)
    requires
        left.len() == right.len(),
    ensures
        lex_less(left, right) <==> be_value(left) < be_value(right),
        left == right <==> be_value(left) == be_value(right),
    decreases left.len(),
{
    lemma_be_bytes_of_value(left);
    lemma_be_bytes_of_value(right);
    if left.len() > 0 {
        let l = left.drop_last();
        let r = right.drop_last();
        lemma_be_order(l, r);
        if lex_less(left, right) {
            let k = choose|k: int|
                0 <= k < left.len() && k < right.len() && left.take(k) == right.take(k)
                    && #[trigger] left[k] < right[k];
            if k < left.len() - 1 {
                assert(l.take(k) =~= left.take(k));
                assert(r.take(k) =~= right.take(k));
                assert(l[k] < r[k]);
                assert(lex_less(l, r));
            } else {
                assert(left.take(k) =~= l);
                assert(right.take(k) =~= r);
            }
        }
        if be_value(left) < be_value(right) {
            if be_value(l) < be_value(r) {
                let k = choose|k: int|
                    0 <= k < l.len() && k < r.len() && l.take(k) == r.take(k) && #[trigger] l[k]
                        < r[k];
                assert(l.take(k) =~= left.take(k));
                assert(r.take(k) =~= right.take(k));
                assert(left[k] < right[k]);
            } else {
                assert(l == r);
                let k = left.len() - 1;
                assert(left.take(k) =~= l);
                assert(right.take(k) =~= r);
                assert(left[k] < right[k]);
            }
        }
    } else {
        assert(left =~= right);
    }
}

/// Read `n` bytes at `start` as a big-endian number.
pub fn read_be(bytes: &[u8], start: usize, n: usize) -> (value: u128)
    requires
        start + n <= bytes@.len(),
        n <= 16,
    ensures
        value == be_value(bytes@.subrange(start as int, start + n)),
        value < pow256(n as nat),
{
    let mut value: u128 = 0;
    let mut i: usize = 0;
    while i < n
        invariant
            i <= n <= 16,
            start + n <= bytes.len(),
            value == be_value(bytes@.subrange(start as int, start + i)),
            value < pow256(i as nat),
        decreases n - i,
    {
        proof {
            lemma_pow256_monotone((i + 1) as nat, 16);
            lemma_pow256_words();
            let next = bytes@.subrange(start as int, start + i + 1);
            assert(next.drop_last() =~= bytes@.subrange(start as int, start + i));
        }
        value = value * 256 + bytes[start + i] as u128;
        i = i + 1;
    }
    value
}

/// Read eight bytes at `start` as a big-endian number.
pub fn read_be_u64(bytes: &[u8], start: usize) -> (value: u64)
    requires
        start + 8 <= bytes@.len(),
    ensures
        value == be_value(bytes@.subrange(start as int, start + 8)),
{
    let wide: u128 = read_be(bytes, start, 8);
    proof {
        lemma_pow256_words();
    }
    wide as u64
}

/// Read eight bytes at `start` as a little-endian number.
pub fn read_le_u64(bytes: &[u8], start: usize) -> (value: u64)
    requires
        start + 8 <= bytes@.len(),
    ensures
        value == le_value(bytes@.subrange(start as int, start + 8)),
{
    let mut reversed: Vec<u8> = Vec::new();
    let mut i: usize = 0;
    while i < 8
        invariant
            i <= 8,
            start + 8 <= bytes.len(),
            reversed@ == bytes@.subrange(start + 8 - i, start + 8).reverse(),
        decreases 8 - i,
    {
        reversed.push(bytes[start + 7 - i]);
        i = i + 1;
        assert(reversed@ =~= bytes@.subrange(start + 8 - i, start + 8).reverse());
    }
    assert(reversed@.subrange(0, 8) =~= bytes@.subrange(start as int, start + 8).reverse());
    read_be_u64(reversed.as_slice(), 0)
}

/// Append `value` in `n` bytes, most significant byte first.
pub fn push_be(out: &mut Vec<u8>, value: u128, n: usize)
    ensures
        final(out)@ == old(out)@ + be_bytes(value as nat, n as nat),
    decreases n,
{
    if n > 0 {
        push_be(out, value / 256, n - 1);
        out.push((value % 256) as u8);
    }
    assert(out@ =~= old(out)@ + be_bytes(value as nat, n as nat));
}

/// Append `value` in eight bytes, least significant byte first.
pub fn push_le_u64(out: &mut Vec<u8>, value: u64)
    ensures
        final(out)@ == old(out)@ + le_bytes(value as nat, 8),
{
    let mut forward: Vec<u8> = Vec::new();
    push_be(&mut forward, value as u128, 8);
    proof {
        lemma_be_bytes_len(value as nat, 8);
    }
    assert(forward@ =~= be_bytes(value as nat, 8));
    let mut i: usize = 0;
    while i < 8
        invariant
            i <= 8,
            forward@.len() == 8,
            out@ == old(out)@ + forward@.subrange(8 - i, 8).reverse(),
        decreases 8 - i,
    {
        out.push(forward[7 - i]);
        i = i + 1;
        assert(out@ =~= old(out)@ + forward@.subrange(8 - i, 8).reverse());
    }
    assert(forward@.subrange(0, 8) =~= forward@);
}

/// Append the bytes of `tail`.
pub fn push_all(out: &mut Vec<u8>, tail: &[u8])
    ensures
        final(out)@ == old(out)@ + tail@,
{
    let mut i: usize = 0;
    while i < tail.len()
        invariant
            i <= tail@.len(),
            out@ == old(out)@ + tail@.take(i as int),
        decreases tail.len() - i,
    {
        out.push(tail[i]);
        i = i + 1;
        assert(out@ =~= old(out)@ + tail@.take(i as int));
    }
    assert(tail@.take(tail@.len() as int) =~= tail@);
}

/// Whether two byte strings are equal.
pub fn same_bytes(left: &[u8], right: &[u8]) -> (same: bool)
    ensures
        same == (left@ == right@),
{
    if left.len() != right.len() {
        return false;
    }
    let mut i: usize = 0;
    while i < left.len()
        invariant
            i <= left@.len() == right@.len(),
            forall|j: int| 0 <= j < i ==> left@[j] == right@[j],
        decreases left.len() - i,
    {
        if left[i] != right[i] {
            return false;
        }
        i = i + 1;
    }
    assert(left@ =~= right@);
    true
}

/// The characters of an ASCII byte string.
pub open spec fn ascii(bytes: Seq<u8>) -> Seq<char> {
    Seq::new(bytes.len(), |i: int| bytes[i] as char)
}

/// Whether every byte is an ASCII code.
pub open spec fn all_ascii(bytes: Seq<u8>) -> bool {
    forall|i: int| 0 <= i < bytes.len() ==> #[trigger] bytes[i] < 128
}

/// `std::string::String::from_utf8`: the string whose UTF-8 encoding the
/// bytes are, or `None` where they are not valid UTF-8.
#[verifier::external_body]
pub(crate) fn string_from_utf8(bytes: Vec<u8>) -> (text: Option<String>)
    ensures
        match text {
            Some(text) => encode_utf8(text@) == bytes@,
            None => !valid_utf8(bytes@),
        },
{
    String::from_utf8(bytes).ok()
}

/// ASCII text is encoded one byte per character.
pub proof fn lemma_ascii_utf8(bytes: Seq<u8>)
    requires
        all_ascii(bytes),
    ensures
        valid_utf8(bytes),
        encode_utf8(ascii(bytes)) == bytes,
        decode_utf8(bytes) == ascii(bytes),
{
    let chars = ascii(bytes);
    assert(is_ascii_chars(chars));
    is_ascii_chars_encode_utf8(chars);
    assert(encode_utf8(chars) =~= bytes);
    encode_utf8_valid_utf8(chars);
    encode_utf8_decode_utf8(chars);
}

/// The string of an ASCII byte string.
pub fn ascii_string(bytes: Vec<u8>) -> (text: String)
    requires
        all_ascii(bytes@),
    ensures
        text@ == ascii(bytes@),
{
    proof {
        lemma_ascii_utf8(bytes@);
    }
    let ghost raw = bytes@;
    match string_from_utf8(bytes) {
        Some(text) => {
            proof {
                encode_utf8_decode_utf8(text@);
            }
            text
        },
        None => String::new(),
    }
}

/// The lowercase hexadecimal digit of a number below sixteen.
pub open spec fn hex_digit(value: int) -> u8 {
    if value < 10 {
        (48 + value) as u8
    } else {
        (87 + value) as u8
    }
}

/// Two lowercase hexadecimal digits for each byte.
pub open spec fn hex_text(bytes: Seq<u8>) -> Seq<u8> {
    Seq::new(
        2 * bytes.len(),
        |i: int|
            if i % 2 == 0 {
                hex_digit(bytes[i / 2] as int / 16)
            } else {
                hex_digit(bytes[i / 2] as int % 16)
            },
    )
}

fn hex_digit_of(value: u8) -> (digit: u8)
    requires
        value < 16,
    ensures
        digit == hex_digit(value as int),
        digit < 128,
{
    if value < 10 {
        48 + value
    } else {
        87 + value
    }
}

/// The lowercase hexadecimal text of `bytes`, as ASCII codes.
pub fn hex_codes(bytes: &[u8]) -> (codes: Vec<u8>)
    ensures
        codes@ == hex_text(bytes@),
        all_ascii(codes@),
{
    let mut codes: Vec<u8> = Vec::new();
    let mut i: usize = 0;
    while i < bytes.len()
        invariant
            i <= bytes@.len(),
            codes@ == hex_text(bytes@.take(i as int)),
            all_ascii(codes@),
        decreases bytes.len() - i,
    {
        let ghost before = codes@;
        codes.push(hex_digit_of(bytes[i] / 16));
        codes.push(hex_digit_of(bytes[i] % 16));
        i = i + 1;
        proof {
            let want = hex_text(bytes@.take(i as int));
            assert forall|j: int| 0 <= j < codes@.len() implies #[trigger] codes@[j] == want[j] by {
                if j < 2 * (i - 1) {
                    assert(before[j] == codes@[j]);
                }
            }
            assert(codes@ =~= want);
        }
    }
    assert(bytes@.take(bytes@.len() as int) =~= bytes@);
    codes
}

/// The lowercase hexadecimal text of `bytes`.
pub fn encode_hex(bytes: &[u8]) -> (text: String)
    ensures
        text@ == ascii(hex_text(bytes@)),
{
    ascii_string(hex_codes(bytes))
}

/// The decimal digits of `value`, without leading zeros.
pub open spec fn decimal_text(value: nat) -> Seq<u8>
    decreases value,
{
    if value < 10 {
        seq![(48 + value) as u8]
    } else {
        decimal_text(value / 10).push((48 + value % 10) as u8)
    }
}

/// The decimal digits of `value` as ASCII codes.
pub fn decimal_codes(value: u64) -> (codes: Vec<u8>)
    ensures
        codes@ == decimal_text(value as nat),
        all_ascii(codes@),
    decreases value,
{
    if value < 10 {
        let mut codes: Vec<u8> = Vec::new();
        codes.push(48 + value as u8);
        assert(codes@ =~= decimal_text(value as nat));
        codes
    } else {
        let mut codes: Vec<u8> = decimal_codes(value / 10);
        codes.push(48 + (value % 10) as u8);
        codes
    }
}

/// The decimal text of `value`.
pub fn decimal(value: u64) -> (text: String)
    ensures
        text@ == ascii(decimal_text(value as nat)),
{
    ascii_string(decimal_codes(value))
}

/// Whether a byte is a lowercase hexadecimal digit.
pub open spec fn is_lower_hex(byte: u8) -> bool {
    48 <= byte <= 57 || 97 <= byte <= 102
}

/// Whether a byte string is made of lowercase hexadecimal digits only.
pub open spec fn all_lower_hex(bytes: Seq<u8>) -> bool {
    forall|i: int| 0 <= i < bytes.len() ==> #[trigger] is_lower_hex(bytes[i])
}

/// Whether every byte is a lowercase hexadecimal digit.
pub fn only_lower_hex(bytes: &[u8]) -> (yes: bool)
    ensures
        yes == all_lower_hex(bytes@),
{
    let mut i: usize = 0;
    while i < bytes.len()
        invariant
            i <= bytes@.len(),
            forall|j: int| 0 <= j < i ==> #[trigger] is_lower_hex(bytes@[j]),
        decreases bytes.len() - i,
    {
        let byte: u8 = bytes[i];
        if !((48 <= byte && byte <= 57) || (97 <= byte && byte <= 102)) {
            assert(!is_lower_hex(bytes@[i as int]));
            return false;
        }
        i = i + 1;
    }
    true
}

/// Hexadecimal text is made of lowercase hexadecimal digits, two per byte.
pub proof fn lemma_hex_text(bytes: Seq<u8>)
    ensures
        hex_text(bytes).len() == 2 * bytes.len(),
        all_lower_hex(hex_text(bytes)),
        all_ascii(hex_text(bytes)),
{
}

/// The number that a lowercase hexadecimal digit stands for.
pub open spec fn digit_number(digit: u8) -> int {
    if digit <= 57 {
        digit - 48
    } else {
        digit - 97 + 10
    }
}

/// Hexadecimal text spells each byte: the first of its two digits counts the
/// sixteens, the second what is left.
pub proof fn lemma_hex_spells(bytes: Seq<u8>)
    ensures
        forall|i: int|
            0 <= i < bytes.len() ==> 16 * digit_number(hex_text(bytes)[2 * i]) + digit_number(
                hex_text(bytes)[2 * i + 1],
            ) == (#[trigger] bytes[i]),
{
    assert forall|i: int| 0 <= i < bytes.len() implies 16 * digit_number(hex_text(bytes)[2 * i])
        + digit_number(hex_text(bytes)[2 * i + 1]) == (#[trigger] bytes[i]) by {
        assert((2 * i) % 2 == 0 && (2 * i) / 2 == i);
        assert((2 * i + 1) % 2 == 1 && (2 * i + 1) / 2 == i);
    }
}

/// Sum that stops at the largest 64-bit number.
pub open spec fn sat_add(left: u64, right: u64) -> u64 {
    if left + right > u64::MAX {
        u64::MAX
    } else {
        (left + right) as u64
    }
}

/// Product that stops at the largest 64-bit number.
pub open spec fn sat_mul(left: u64, right: u64) -> u64 {
    if left * right > u64::MAX {
        u64::MAX
    } else {
        (left * right) as u64
    }
}

/// Sum that stops at the largest 64-bit number.
pub fn saturating_sum(left: u64, right: u64) -> (sum: u64)
    ensures
        sum == sat_add(left, right),
{
    match left.checked_add(right) {
        Some(sum) => sum,
        None => u64::MAX,
    }
}

/// Product that stops at the largest 64-bit number.
pub fn saturating_product(left: u64, right: u64) -> (product: u64)
    ensures
        product == sat_mul(left, right),
{
    match left.checked_mul(right) {
        Some(product) => product,
        None => u64::MAX,
    }
}

/// Whether a text starts with a prefix, byte by byte.
pub open spec fn starts_with(text: Seq<u8>, prefix: Seq<u8>) -> bool {
    prefix.len() <= text.len() && text.take(prefix.len() as int) == prefix
}

/// Whether a text ends with a suffix, byte by byte.
pub open spec fn ends_with(text: Seq<u8>, suffix: Seq<u8>) -> bool {
    suffix.len() <= text.len() && text.skip(text.len() - suffix.len()) == suffix
}

/// Whether `text` starts with `prefix`.
pub fn has_prefix(text: &[u8], prefix: &[u8]) -> (yes: bool)
    ensures
        yes == starts_with(text@, prefix@),
{
    if text.len() < prefix.len() {
        return false;
    }
    assert(text@.subrange(0, prefix@.len() as int) =~= text@.take(prefix@.len() as int));
    same_bytes(slice_subrange(text, 0, prefix.len()), prefix)
}

/// Whether `text` ends with `suffix`.
pub fn has_suffix(text: &[u8], suffix: &[u8]) -> (yes: bool)
    ensures
        yes == ends_with(text@, suffix@),
{
    if text.len() < suffix.len() {
        return false;
    }
    let start: usize = text.len() - suffix.len();
    assert(text@.subrange(start as int, text@.len() as int) =~= text@.skip(start as int));
    same_bytes(slice_subrange(text, start, text.len()), suffix)
}

/// Whether two texts are equal.
pub fn same_text(left: &str, right: &str) -> (same: bool)
    ensures
        same == (left@ == right@),
{
    proof {
        encode_utf8_decode_utf8(left@);
        encode_utf8_decode_utf8(right@);
    }
    same_bytes(left.as_bytes(), right.as_bytes())
}

} // verus!
