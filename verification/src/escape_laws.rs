//! What a reader of JSON finds in an encoded text.
use vstd::prelude::*;

use crate::ordinal_manifest::{escaped, escaped_byte, hex_digit};

verus! {

/// The number of a hexadecimal digit of an escape, if it is one.
pub open spec fn escape_digit(code: u8) -> Option<int> {
    if 48 <= code <= 57 {
        Some(code - 48)
    } else if 97 <= code <= 102 {
        Some(code - 87)
    } else if 65 <= code <= 70 {
        Some(code - 55)
    } else {
        None
    }
}

/// The byte in front of the contents of a JSON text, and how many bytes write it. A
/// quotation mark or a control character that stands for itself is none, nor is an
/// escape of a character above the control characters.
pub open spec fn read_front(text: Seq<u8>) -> Option<(u8, int)> {
    if text[0] != 92 {
        if text[0] == 34 || text[0] < 32 {
            None
        } else {
            Some((text[0], 1))
        }
    } else if text.len() < 2 {
        None
    } else if text[1] == 34 || text[1] == 92 || text[1] == 47 {
        Some((text[1], 2))
    } else if text[1] == 98 {
        Some((8, 2))
    } else if text[1] == 116 {
        Some((9, 2))
    } else if text[1] == 110 {
        Some((10, 2))
    } else if text[1] == 102 {
        Some((12, 2))
    } else if text[1] == 114 {
        Some((13, 2))
    } else if text[1] == 117 && text.len() >= 6 && text[2] == 48 && text[3] == 48 && escape_digit(
        text[4],
    ) is Some && escape_digit(text[5]) is Some && escape_digit(text[4])->0 < 2 {
        Some(((16 * escape_digit(text[4])->0 + escape_digit(text[5])->0) as u8, 6))
    } else {
        None
    }
}

/// The bytes that the contents of a JSON text stand for, if it is one.
pub open spec fn unescaped(text: Seq<u8>) -> Option<Seq<u8>>
    decreases text.len(),
{
    if text.len() == 0 {
        Some(Seq::empty())
    } else {
        match read_front(text) {
            None => None,
            Some((byte, width)) => if width <= 0 || width > text.len() {
                None
            } else {
                match unescaped(text.skip(width)) {
                    None => None,
                    Some(rest) => Some(seq![byte] + rest),
                }
            },
        }
    }
}

proof fn lemma_escaped_front(first: u8, rest: Seq<u8>)
    ensures
        escaped(seq![first] + rest) == escaped_byte(first) + escaped(rest),
    decreases rest.len(),
{
    let all = seq![first] + rest;
    if rest.len() == 0 {
        assert(all.drop_last() =~= Seq::<u8>::empty());
        assert(escaped(all.drop_last()) =~= Seq::<u8>::empty());
        assert(escaped(all) =~= escaped_byte(first));
        assert(escaped_byte(first) + escaped(rest) =~= escaped_byte(first));
    } else {
        let head = rest.drop_last();
        lemma_escaped_front(first, head);
        assert(all.drop_last() =~= seq![first] + head);
        assert(escaped_byte(first) + escaped(head) + escaped_byte(rest.last())
            =~= escaped_byte(first) + (escaped(head) + escaped_byte(rest.last())));
    }
}

proof fn lemma_front_read(byte: u8, rest: Seq<u8>)
    ensures
        read_front(escaped_byte(byte) + rest) == Some((byte, escaped_byte(byte).len() as int)),
        (escaped_byte(byte) + rest).skip(escaped_byte(byte).len() as int) == rest,
{
    let text = escaped_byte(byte) + rest;
    assert(text.skip(escaped_byte(byte).len() as int) =~= rest);
    if byte < 32 && byte != 8 && byte != 9 && byte != 10 && byte != 12 && byte != 13 {
        assert(text[4] == hex_digit((byte / 16) as u8));
        assert(text[5] == hex_digit((byte % 16) as u8));
        assert(16 * (byte / 16) + byte % 16 == byte);
    }
}

/// A reader of JSON finds in an encoded text the bytes that were encoded.
pub proof fn lemma_escaped_read(bytes: Seq<u8>)
    ensures
        unescaped(escaped(bytes)) == Some(bytes),
    decreases bytes.len(),
{
    if bytes.len() > 0 {
        let first = bytes[0];
        let rest = bytes.skip(1);
        assert(bytes =~= seq![first] + rest);
        lemma_escaped_front(first, rest);
        lemma_front_read(first, escaped(rest));
        lemma_escaped_read(rest);
    }
}

} // verus!
