//! JSON documents that are carried as their canonical text.
use vstd::prelude::*;
use vstd::string::*;
use vstd::utf8::*;

use crate::bytes::{push_all, string_from_utf8};

verus! {

/// The compact text that a JSON text is written as once it has been read; none
/// where it is not JSON.
pub uninterp spec fn json_normal(text: Seq<char>) -> Option<Seq<char>>;

/// `serde_json::from_str` into a `serde_json::Value`, and the compact text of
/// that value: a function of the text alone. The compact text holds no line
/// feed, since the writer escapes those of strings and adds none.
#[verifier::external_body]
pub(crate) fn normalize_json(text: &str) -> (normal: Option<String>)
    ensures
        match normal {
            Some(normal) => json_normal(text@) == Some(normal@) && !normal@.contains('\n'),
            None => json_normal(text@) is None,
        },
{
    let value: serde_json::Value = serde_json::from_str(text).ok()?;
    Some(value.to_string())
}

/// The unsigned number that a member of a JSON record holds: none where the
/// record has no such member or it holds anything else; the reason where the
/// bytes are not JSON.
pub uninterp spec fn json_unsigned_member(body: Seq<u8>, member: Seq<char>) -> Result<
    Option<u64>,
    Seq<char>,
>;

/// `serde_json::from_slice` into a `serde_json::Value`, then `Value::get` and
/// `Value::as_u64`: a function of the bytes and of the member's name alone.
/// The text of the error is that of the parse.
#[verifier::external_body]
pub(crate) fn unsigned_member(body: &[u8], member: &str) -> (value: Result<Option<u64>, String>)
    ensures
        match value {
            Ok(value) => json_unsigned_member(body@, member@) == Ok::<Option<u64>, Seq<char>>(
                value,
            ),
            Err(text) => json_unsigned_member(body@, member@) == Err::<Option<u64>, Seq<char>>(
                text@,
            ),
        },
{
    let parsed = serde_json::from_slice::<serde_json::Value>(body);
    let value: serde_json::Value = parsed.map_err(|error| error.to_string())?;
    Ok(value.get(member).and_then(serde_json::Value::as_u64))
}

/// A JSON document, as compact text.
#[derive(Debug, PartialEq, Eq)]
pub struct JsonDocument {
    text: String,
}

impl View for JsonDocument {
    type V = Seq<char>;

    closed spec fn view(&self) -> Seq<char> {
        self.text@
    }
}

impl JsonDocument {
    #[verifier::type_invariant]
    spec fn on_one_line(self) -> bool {
        !self.text@.contains('\n')
    }

    /// Read a document.
    pub fn parse(text: &str) -> (document: Option<JsonDocument>)
        ensures
            match document {
                Some(document) => json_normal(text@) == Some(document@),
                None => json_normal(text@) is None,
            },
    {
        match normalize_json(text) {
            Some(text) => Some(JsonDocument { text }),
            None => None,
        }
    }

    /// The document as compact text. It is a single line.
    pub fn text(&self) -> (text: &String)
        ensures
            text@ == self@,
            !text@.contains('\n'),
    {
        proof {
            use_type_invariant(self);
        }
        &self.text
    }
}

/// Whether a JSON reader reads a byte string. It reads nothing that is nested
/// too deep for it, so a record is not read for each of its documents being read
/// by itself.
pub open spec fn is_json(bytes: Seq<u8>) -> bool {
    valid_utf8(bytes) && json_normal(decode_utf8(bytes)) is Some
}

/// Whether a JSON reader reads a byte string.
pub(crate) fn holds_json(bytes: &[u8]) -> (yes: bool)
    ensures
        yes == is_json(bytes@),
{
    let mut copy: Vec<u8> = Vec::new();
    push_all(&mut copy, bytes);
    assert(copy@ =~= bytes@);
    match string_from_utf8(copy) {
        Some(text) => {
            proof {
                encode_utf8_valid_utf8(text@);
                encode_utf8_decode_utf8(text@);
            }
            normalize_json(text.as_str()).is_some()
        },
        None => false,
    }
}

/// Whether a compact text is that of an object.
pub open spec fn is_object(text: Seq<char>) -> bool {
    text.len() > 0 && text[0] == '{'
}

/// Where a scan of JSON bytes stands: how many brackets are open, whether it
/// is inside a string, and whether the next byte there is escaped.
pub struct BracketScan {
    pub depth: int,
    pub quoted: bool,
    pub escaped: bool,
}

/// The scan after one more byte.
pub open spec fn scan_step(scan: BracketScan, byte: u8) -> BracketScan {
    if scan.quoted {
        if scan.escaped {
            BracketScan { escaped: false, ..scan }
        } else if byte == 92 {
            BracketScan { escaped: true, ..scan }
        } else if byte == 34 {
            BracketScan { quoted: false, ..scan }
        } else {
            scan
        }
    } else if byte == 34 {
        BracketScan { quoted: true, ..scan }
    } else if byte == 123 || byte == 91 {
        BracketScan { depth: scan.depth + 1, ..scan }
    } else if byte == 125 || byte == 93 {
        BracketScan { depth: scan.depth - 1, ..scan }
    } else {
        scan
    }
}

/// The scan of some bytes.
pub open spec fn scanned(bytes: Seq<u8>) -> BracketScan
    decreases bytes.len(),
{
    if bytes.len() == 0 {
        BracketScan { depth: 0, quoted: false, escaped: false }
    } else {
        scan_step(scanned(bytes.drop_last()), bytes.last())
    }
}

/// Whether the first bracket closes with the last byte and not before.
pub open spec fn closes(bytes: Seq<u8>) -> bool {
    &&& bytes.len() > 0
    &&& scanned(bytes).depth == 0
    &&& forall|n: int| 0 < n < bytes.len() ==> scanned(#[trigger] bytes.take(n)).depth > 0
}

/// Where an object ends is decided by its own bytes, whatever follows.
pub proof fn lemma_closes_once(
    left: Seq<u8>,
    left_rest: Seq<u8>,
    right: Seq<u8>,
    right_rest: Seq<u8>,
)
    requires
        closes(left),
        closes(right),
        left + left_rest == right + right_rest,
    ensures
        left == right,
        left_rest == right_rest,
{
    let all = left + left_rest;
    assert(all.take(left.len() as int) =~= left);
    assert(all.take(right.len() as int) =~= right);
    if left.len() < right.len() {
        assert(right.take(left.len() as int) =~= left);
    } else if right.len() < left.len() {
        assert(left.take(right.len() as int) =~= right);
    }
    assert(all.skip(left.len() as int) =~= left_rest);
    assert(all.skip(right.len() as int) =~= right_rest);
}

fn is_closed(bytes: &[u8]) -> (closed: bool)
    ensures
        closed == closes(bytes@),
{
    let mut depth: usize = 0;
    let mut quoted: bool = false;
    let mut escaped: bool = false;
    let mut at: usize = 0;
    assert(bytes@.take(0) =~= Seq::<u8>::empty());
    while at < bytes.len()
        invariant
            at <= bytes@.len(),
            depth <= at,
            scanned(bytes@.take(at as int)) == (BracketScan { depth: depth as int, quoted, escaped }),
            forall|n: int| 0 < n < at ==> scanned(#[trigger] bytes@.take(n)).depth > 0,
            0 < at < bytes@.len() ==> depth > 0,
        decreases bytes.len() - at,
    {
        let byte: u8 = bytes[at];
        proof {
            assert(bytes@.take(at + 1).drop_last() =~= bytes@.take(at as int));
            assert(bytes@.take(bytes@.len() as int) =~= bytes@);
        }
        if quoted {
            if escaped {
                escaped = false;
            } else if byte == 92 {
                escaped = true;
            } else if byte == 34 {
                quoted = false;
            }
        } else if byte == 34 {
            quoted = true;
        } else if byte == 123 || byte == 91 {
            depth = depth + 1;
        } else if byte == 125 || byte == 93 {
            if depth == 0 {
                assert(scanned(bytes@.take(at + 1)).depth == -1);
                return false;
            }
            depth = depth - 1;
        }
        at = at + 1;
        if at < bytes.len() && depth == 0 {
            assert(scanned(bytes@.take(at as int)).depth == 0);
            return false;
        }
    }
    assert(bytes@.take(at as int) =~= bytes@);
    bytes.len() > 0 && depth == 0
}

/// A JSON object, as compact text.
#[derive(Debug, PartialEq, Eq)]
pub struct JsonObject {
    text: String,
}

impl View for JsonObject {
    type V = Seq<char>;

    closed spec fn view(&self) -> Seq<char> {
        self.text@
    }
}

/// The object without members is closed.
pub proof fn lemma_empty_closes()
    ensures
        closes(encode_utf8("{}"@)),
{
    reveal_strlit("{}");
    let bytes = encode_utf8("{}"@);
    is_ascii_chars_encode_utf8("{}"@);
    assert(bytes =~= seq![123u8, 125u8]);
    reveal_with_fuel(scanned, 3);
    assert(bytes.drop_last() =~= seq![123u8]);
    assert(bytes.drop_last().drop_last() =~= Seq::<u8>::empty());
    assert(bytes.take(1) =~= seq![123u8]);
}

impl JsonObject {
    #[verifier::type_invariant]
    spec fn sound(self) -> bool {
        is_object(self.text@) && !self.text@.contains('\n') && closes(encode_utf8(self.text@))
    }

    /// The object without members.
    pub fn empty() -> (object: JsonObject)
        ensures
            object@ == "{}"@,
    {
        proof {
            reveal_strlit("{}");
            assert(!"{}"@.contains('\n')) by {
                if "{}"@.contains('\n') {
                    let i = choose|i: int| 0 <= i < "{}"@.len() && "{}"@[i] == '\n';
                    assert(i == 0 || i == 1);
                }
            }
            lemma_empty_closes();
        }
        JsonObject { text: "{}".to_owned() }
    }

    /// Read an object, and find where its first bracket closes: at the end.
    pub fn parse(text: &str) -> (object: Option<JsonObject>)
        ensures
            match object {
                Some(object) => {
                    &&& json_normal(text@) == Some(object@)
                    &&& is_object(object@)
                    &&& closes(encode_utf8(object@))
                },
                None => {
                    ||| json_normal(text@) is None
                    ||| !is_object(json_normal(text@)->0)
                    ||| !closes(encode_utf8(json_normal(text@)->0))
                },
            },
    {
        match normalize_json(text) {
            Some(text) => {
                if text.as_str().unicode_len() == 0 {
                    return None;
                }
                if text.as_str().get_char(0) != '{' {
                    return None;
                }
                if !is_closed(text.as_str().as_bytes()) {
                    return None;
                }
                Some(JsonObject { text })
            },
            None => None,
        }
    }

    /// The object as compact text. It is a single line.
    pub fn text(&self) -> (text: &String)
        ensures
            text@ == self@,
            !text@.contains('\n'),
            is_object(text@),
            closes(encode_utf8(text@)),
    {
        proof {
            use_type_invariant(self);
        }
        &self.text
    }
}

} // verus!
