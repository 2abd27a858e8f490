//! Which workspace records are accepted, and in what order bridges are adopted.
use vstd::prelude::*;
use vstd::utf8::*;

use crate::bytes::{ascii, lemma_ascii_utf8};
use crate::digest::sha256_hex;
use crate::private_names::{lemma_lower_hex_characters, lower_hex_text};
use crate::ranked::{
    in_order, lemma_text_antisymmetric, lemma_text_total, lemma_text_transitive, Ranked,
    text_not_after,
};
use crate::verify_laws::is_hex;
use crate::workspace::{
    directedness_of, directedness_token, GraphDirectedness, mode_of, mode_token, ontology_fault,
    OntologyView, WorkspaceOntologyMode,
};
use crate::workspace_composition::{
    adoption, BridgeKey, BridgeView, composition_fault, first_ready, is_ready, places,
    WORKSPACE_ONTOLOGY_COMPOSITION_VERSION,
};
use crate::workspace_snapshot::{
    entries_fault, EntryView, id_byte, is_id, listed_fault, snapshot_fault, SnapshotView,
};

verus! {

/// Whether one byte string stands before another: where they first differ it has
/// the smaller byte, or it is the beginning of the other.
pub open spec fn lexically_before(left: Seq<u8>, right: Seq<u8>) -> bool {
    exists|k: int| #[trigger] differs_at(left, right, k)
}

/// Whether two byte strings agree up to a place, where the first ends or has the
/// smaller byte.
pub open spec fn differs_at(left: Seq<u8>, right: Seq<u8>, k: int) -> bool {
    &&& 0 <= k <= left.len()
    &&& k < right.len()
    &&& forall|i: int| 0 <= i < k ==> #[trigger] left[i] == right[i]
    &&& k < left.len() ==> left[k] < right[k]
}

/// The order of names is that of their bytes.
pub proof fn lemma_text_order_lexical(left: Seq<u8>, right: Seq<u8>)
    ensures
        text_not_after(left, right) <==> left == right || lexically_before(left, right),
    decreases left.len(),
{
    if left.len() == 0 {
        if right.len() > 0 {
            assert(differs_at(left, right, 0));
        } else {
            assert(left =~= right);
        }
    } else if right.len() == 0 {
        assert forall|k: int| !differs_at(left, right, k) by {}
    } else {
        let a = left.skip(1);
        let b = right.skip(1);
        lemma_text_order_lexical(a, b);
        if text_not_after(left, right) {
            if left[0] < right[0] {
                assert(differs_at(left, right, 0));
            } else if a == b {
                assert forall|i: int| 0 <= i < left.len() implies left[i] == right[i] by {
                    if i > 0 {
                        assert(a[i - 1] == b[i - 1]);
                    }
                }
                assert(a.len() == b.len());
                assert(left =~= right);
            } else {
                let k = choose|k: int| #[trigger] differs_at(a, b, k);
                assert forall|i: int| 0 <= i < k + 1 implies #[trigger] left[i] == right[i] by {
                    if i > 0 {
                        assert(a[i - 1] == b[i - 1]);
                    }
                }
                assert(differs_at(left, right, k + 1));
            }
        }
        if lexically_before(left, right) {
            let k = choose|k: int| #[trigger] differs_at(left, right, k);
            if k > 0 {
                assert(left[0] == right[0]);
                assert forall|i: int| 0 <= i < k - 1 implies #[trigger] a[i] == b[i] by {
                    assert(left[i + 1] == right[i + 1]);
                }
                assert(differs_at(a, b, k - 1));
            }
        }
    }
}

/// Whether a character can stand at a place of an identifier.
pub open spec fn id_char(c: char, at: int) -> bool {
    'a' <= c <= 'z' || at > 0 && ('0' <= c <= '9' || c == '-' || c == '_')
}

proof fn lemma_id_characters(text: Seq<char>)
    ensures
        is_id(encode_utf8(text)) <==> 0 < text.len() <= 256 && forall|i: int|
            0 <= i < text.len() ==> #[trigger] id_char(text[i], i),
{
    let bytes = encode_utf8(text);
    if is_id(bytes) {
        assert forall|i: int| 0 <= i < bytes.len() implies #[trigger] bytes[i] < 128 by {
            assert(id_byte(bytes[i], i));
        }
        lemma_ascii_utf8(bytes);
        encode_utf8_decode_utf8(text);
        assert(text == ascii(bytes));
        assert forall|i: int| 0 <= i < text.len() implies #[trigger] id_char(text[i], i) by {
            assert(id_byte(bytes[i], i));
        }
    }
    if 0 < text.len() <= 256 && forall|i: int|
        0 <= i < text.len() ==> #[trigger] id_char(text[i], i) {
        assert(is_ascii_chars(text)) by {
            assert forall|i: int| 0 <= i < text.len() implies '\0' <= #[trigger] text[i]
                <= '\u{7f}' by {
                assert(id_char(text[i], i));
            }
        }
        is_ascii_chars_encode_utf8(text);
        assert forall|i: int| 0 <= i < bytes.len() implies #[trigger] id_byte(bytes[i], i) by {
            assert(id_char(text[i], i));
            assert(bytes[i] == text[i] as u8);
        }
    }
}

/// Whether entries can be recorded: no more than allowed, each under an
/// identifier and with a digest, by strictly rising identifier.
pub open spec fn recordable(entries: Seq<EntryView>) -> bool {
    &&& entries.len() <= 10_000
    &&& forall|i: int|
        0 <= i < entries.len() ==> 0 < (#[trigger] entries[i]).id.len() <= 256 && is_hex(
            entries[i].sha256,
            64,
        )
    &&& forall|i: int, k: int|
        0 <= i < entries.len() && 0 <= k < entries[i].id.len() ==> #[trigger] id_char(
            entries[i].id[k],
            k,
        )
    &&& forall|i: int, j: int|
        0 <= i < j < entries.len() ==> lexically_before(
            encode_utf8((#[trigger] entries[i]).id),
            encode_utf8((#[trigger] entries[j]).id),
        )
}

/// What is listed without a fault, entry by entry.
spec fn listed(entries: Seq<EntryView>) -> bool {
    &&& forall|i: int|
        0 <= i < entries.len() ==> is_id(encode_utf8((#[trigger] entries[i]).id)) && lower_hex_text(
            entries[i].sha256,
            64,
        )
    &&& forall|i: int, j: int|
        0 <= i < j < entries.len() ==> !text_not_after(
            encode_utf8((#[trigger] entries[j]).id),
            encode_utf8((#[trigger] entries[i]).id),
        )
}

proof fn lemma_listed(entries: Seq<EntryView>, name: Seq<char>)
    ensures
        listed_fault(entries, name) is None <==> listed(entries),
    decreases entries.len(),
{
    if entries.len() > 0 {
        let front = entries.drop_last();
        let last = entries.last();
        lemma_listed(front, name);
        assert(entries[entries.len() - 1] == last);
        assert(forall|i: int| 0 <= i < front.len() ==> #[trigger] front[i] == entries[i]);
        if listed_fault(entries, name) is None {
            assert forall|i: int, j: int| 0 <= i < j < entries.len() implies !text_not_after(
                encode_utf8((#[trigger] entries[j]).id),
                encode_utf8((#[trigger] entries[i]).id),
            ) by {
                if j < front.len() {
                    assert(!text_not_after(encode_utf8(front[j].id), encode_utf8(front[i].id)));
                } else {
                    let near = encode_utf8(entries[entries.len() - 2].id);
                    let mine = encode_utf8(last.id);
                    let far = encode_utf8(entries[i].id);
                    if i < entries.len() - 2 {
                        assert(front[entries.len() - 2] == entries[entries.len() - 2]);
                        assert(!text_not_after(
                            encode_utf8(front[entries.len() - 2].id),
                            encode_utf8(front[i].id),
                        ));
                        lemma_text_total(near, far);
                        if text_not_after(mine, far) {
                            lemma_text_transitive(mine, far, near);
                        }
                    }
                }
            }
            assert forall|i: int| 0 <= i < entries.len() implies is_id(
                encode_utf8((#[trigger] entries[i]).id),
            ) && lower_hex_text(entries[i].sha256, 64) by {
                if i < front.len() {
                    assert(is_id(encode_utf8(front[i].id)));
                }
            }
            assert(listed(entries));
        }
        if listed(entries) {
            assert forall|i: int, j: int| 0 <= i < j < front.len() implies !text_not_after(
                encode_utf8((#[trigger] front[j]).id),
                encode_utf8((#[trigger] front[i]).id),
            ) by {
                assert(!text_not_after(encode_utf8(entries[j].id), encode_utf8(entries[i].id)));
            }
            assert forall|i: int| 0 <= i < front.len() implies is_id(
                encode_utf8((#[trigger] front[i]).id),
            ) && lower_hex_text(front[i].sha256, 64) by {
                assert(is_id(encode_utf8(entries[i].id)));
            }
            assert(listed(front));
            if entries.len() > 1 {
                assert(!text_not_after(
                    encode_utf8(entries[entries.len() - 1].id),
                    encode_utf8(entries[entries.len() - 2].id),
                ));
            }
        }
    }
}

/// Entries are accepted exactly where they can be recorded.
pub proof fn lemma_entries_accepted(entries: Seq<EntryView>, name: Seq<char>)
    ensures
        entries_fault(entries, name) is None <==> recordable(entries),
{
    lemma_listed(entries, name);
    assert forall|i: int| 0 <= i < entries.len() implies (is_id(
        encode_utf8((#[trigger] entries[i]).id),
    ) <==> 0 < entries[i].id.len() <= 256 && forall|k: int|
        0 <= k < entries[i].id.len() ==> #[trigger] id_char(entries[i].id[k], k)) && (
    lower_hex_text(entries[i].sha256, 64) <==> is_hex(entries[i].sha256, 64)) by {
        lemma_id_characters(entries[i].id);
        lemma_lower_hex_characters(entries[i].sha256, 64);
    }
    assert forall|i: int, j: int| 0 <= i < j < entries.len() implies (!text_not_after(
        encode_utf8((#[trigger] entries[j]).id),
        encode_utf8((#[trigger] entries[i]).id),
    ) <==> lexically_before(encode_utf8(entries[i].id), encode_utf8(entries[j].id))) by {
        let a = encode_utf8(entries[i].id);
        let b = encode_utf8(entries[j].id);
        lemma_text_order_lexical(a, b);
        lemma_text_order_lexical(b, a);
        lemma_text_total(a, b);
        if text_not_after(a, b) && text_not_after(b, a) {
            lemma_text_antisymmetric(a, b);
            assert forall|k: int| !differs_at(a, b, k) by {}
        }
    }
    if recordable(entries) {
        assert forall|i: int| 0 <= i < entries.len() implies is_id(
            encode_utf8((#[trigger] entries[i]).id),
        ) && lower_hex_text(entries[i].sha256, 64) by {
            assert(0 < entries[i].id.len() <= 256);
        }
        assert forall|i: int, j: int| 0 <= i < j < entries.len() implies !text_not_after(
            encode_utf8((#[trigger] entries[j]).id),
            encode_utf8((#[trigger] entries[i]).id),
        ) by {
            assert(lexically_before(encode_utf8(entries[i].id), encode_utf8(entries[j].id)));
        }
        assert(listed(entries));
    }
    if entries_fault(entries, name) is None {
        assert(listed(entries));
        assert forall|i: int, k: int|
            0 <= i < entries.len() && 0 <= k < entries[i].id.len() implies #[trigger] id_char(
            entries[i].id[k],
            k,
        ) by {
            assert(is_id(encode_utf8(entries[i].id)));
        }
        assert forall|i: int, j: int| 0 <= i < j < entries.len() implies lexically_before(
            encode_utf8((#[trigger] entries[i]).id),
            encode_utf8((#[trigger] entries[j]).id),
        ) by {
            assert(!text_not_after(encode_utf8(entries[j].id), encode_utf8(entries[i].id)));
        }
    }
}

/// A repository snapshot is accepted exactly where it is of this contract, its
/// configuration has a digest, its definitions and sources can be recorded, its
/// commit is absent or in hexadecimal of one of the two lengths, it names an
/// operation, and an actor that it names is not nil.
pub proof fn lemma_snapshot_accepted(snapshot: SnapshotView)
    ensures
        snapshot_fault(snapshot) is None <==> {
            &&& snapshot.contract_version == 1
            &&& is_hex(snapshot.config, 64)
            &&& recordable(snapshot.definitions)
            &&& recordable(snapshot.sources)
            &&& snapshot.commit is Some ==> is_hex(snapshot.commit->0, 40) || is_hex(
                snapshot.commit->0,
                64,
            )
            &&& snapshot.operation != 0
            &&& snapshot.actor is Some ==> snapshot.actor->0 != 0
        },
{
    lemma_entries_accepted(snapshot.definitions, "definition"@);
    lemma_entries_accepted(snapshot.sources, "source"@);
    lemma_lower_hex_characters(snapshot.config, 64);
    if let Some(commit) = snapshot.commit {
        lemma_lower_hex_characters(commit, 40);
        lemma_lower_hex_characters(commit, 64);
    }
}

/// An ontology record is accepted exactly where it is of this contract and either
/// says nothing of an ontology, or has a mode, a source format and a document with
/// the digest of its text.
pub proof fn lemma_ontology_accepted(record: OntologyView)
    ensures
        ontology_fault(record) is None <==> {
            &&& record.contract_version == 1
            &&& record.mode is Absent ==> record.source_format is None && record.digest is None
                && record.document is None
            &&& !(record.mode is Absent) ==> record.source_format is Some && record.document is Some
                && record.digest is Some && record.digest->0 == sha256_hex(
                encode_utf8(record.document->0),
            )
        },
{
}

/// The record of an ontology composition is accepted exactly where it is of this
/// contract and its fingerprint is a digest.
pub proof fn lemma_composition_accepted(contract_version: u32, fingerprint: Seq<char>)
    ensures
        composition_fault(contract_version, fingerprint) is None <==> contract_version
            == WORKSPACE_ONTOLOGY_COMPOSITION_VERSION && is_hex(fingerprint, 64),
{
    lemma_lower_hex_characters(fingerprint, 64);
}

/// Tokens and modes stand for each other, one for one.
pub proof fn lemma_tokens_paired(mode: WorkspaceOntologyMode, token: Seq<char>)
    ensures
        mode_of(token) == Some(mode) <==> token == mode_token(mode),
{
    reveal_strlit("none");
    reveal_strlit("advisory");
    reveal_strlit("strict");
    assert("none"@[0] == 'n');
    assert("advisory"@[0] == 'a');
    assert("strict"@[0] == 's');
}

/// Tokens and directedness stand for each other, one for one.
pub proof fn lemma_directedness_paired(directedness: GraphDirectedness, token: Seq<char>)
    ensures
        directedness_of(token) == Some(directedness) <==> token == directedness_token(directedness),
{
    reveal_strlit("directed");
    reveal_strlit("undirected");
    assert("directed"@[0] == 'd');
    assert("undirected"@[0] == 'u');
}

/// Bridges in order rise by identity, of one identity by version, and of one
/// version by the place that they were handed over in.
pub proof fn lemma_bridges_rise(bridges: Seq<BridgeKey>)
    requires
        in_order(bridges),
    ensures
        forall|i: int, j: int|
            0 <= i < j < bridges.len() ==> {
                let (a, b) = (
                    encode_utf8((#[trigger] bridges[i]).bridge_id@),
                    encode_utf8((#[trigger] bridges[j]).bridge_id@),
                );
                let (v, w) = (
                    encode_utf8(bridges[i].authored_version@),
                    encode_utf8(bridges[j].authored_version@),
                );
                ||| lexically_before(a, b)
                ||| a == b && lexically_before(v, w)
                ||| a == b && v == w && bridges[i].place <= bridges[j].place
            },
{
    assert forall|i: int, j: int| 0 <= i < j < bridges.len() implies {
        let (a, b) = (
            encode_utf8((#[trigger] bridges[i]).bridge_id@),
            encode_utf8((#[trigger] bridges[j]).bridge_id@),
        );
        let (v, w) = (
            encode_utf8(bridges[i].authored_version@),
            encode_utf8(bridges[j].authored_version@),
        );
        ||| lexically_before(a, b)
        ||| a == b && lexically_before(v, w)
        ||| a == b && v == w && bridges[i].place <= bridges[j].place
    } by {
        let (a, b) = (encode_utf8(bridges[i].bridge_id@), encode_utf8(bridges[j].bridge_id@));
        let (v, w) = (
            encode_utf8(bridges[i].authored_version@),
            encode_utf8(bridges[j].authored_version@),
        );
        assert(bridges[i].not_after(bridges[j]));
        lemma_text_order_lexical(a, b);
        lemma_text_order_lexical(b, a);
        lemma_text_total(a, b);
        lemma_text_order_lexical(v, w);
        lemma_text_order_lexical(w, v);
        lemma_text_total(v, w);
    }
}

proof fn lemma_first_ready(
    bridges: Seq<BridgeView>,
    adopted: Seq<usize>,
    remaining: Seq<usize>,
    from: nat,
)
    ensures
        first_ready(bridges, adopted, remaining, from) matches Some(at) ==> from <= at
            < remaining.len() && is_ready(bridges, adopted, remaining[at as int]) && forall|k: int|
            from <= k < at ==> !is_ready(bridges, adopted, #[trigger] remaining[k]),
    decreases remaining.len() - from,
{
    if from < remaining.len() && !is_ready(bridges, adopted, remaining[from as int]) {
        lemma_first_ready(bridges, adopted, remaining, from + 1);
    }
}

proof fn lemma_adoption_earliest(
    bridges: Seq<BridgeView>,
    adopted: Seq<usize>,
    remaining: Seq<usize>,
)
    requires
        forall|i: int, j: int|
            0 <= i < j < remaining.len() ==> #[trigger] remaining[i] < #[trigger] remaining[j],
        adoption(bridges, adopted, remaining) is Some,
    ensures
        ({
            let order = adoption(bridges, adopted, remaining)->0;
            &&& order.len() == adopted.len() + remaining.len()
            &&& forall|i: int| 0 <= i < adopted.len() ==> #[trigger] order[i] == adopted[i]
            &&& forall|i: int|
                adopted.len() <= i < order.len() ==> remaining.contains(#[trigger] order[i])
            &&& forall|i: int, b: usize|
                #![trigger order[i], remaining.contains(b)]
                adopted.len() <= i < order.len() && remaining.contains(b) && !order.take(
                    i,
                ).contains(b) && is_ready(bridges, order.take(i), b) ==> order[i] <= b
        }),
    decreases remaining.len(),
{
    let order = adoption(bridges, adopted, remaining)->0;
    if remaining.len() > 0 {
        lemma_first_ready(bridges, adopted, remaining, 0);
        let at = first_ready(bridges, adopted, remaining, 0)->0 as int;
        let one = remaining[at];
        let next = adopted.push(one);
        let left = remaining.remove(at);
        assert forall|i: int, j: int| 0 <= i < j < left.len() implies #[trigger] left[i]
            < #[trigger] left[j] by {
            let a = if i < at {
                i
            } else {
                i + 1
            };
            let b = if j < at {
                j
            } else {
                j + 1
            };
            assert(remaining[a] < remaining[b]);
        }
        lemma_adoption_earliest(bridges, next, left);
        assert(order[adopted.len() as int] == next[adopted.len() as int]);
        assert forall|i: int| 0 <= i < adopted.len() implies #[trigger] order[i] == adopted[i] by {
            assert(order[i] == next[i]);
        }
        assert forall|i: int| adopted.len() <= i < order.len() implies remaining.contains(
            #[trigger] order[i],
        ) by {
            if i == adopted.len() {
                assert(remaining[at] == order[i]);
            } else {
                assert(left.contains(order[i]));
                let k = choose|k: int| 0 <= k < left.len() && left[k] == order[i];
                assert(remaining[if k < at {
                    k
                } else {
                    k + 1
                }] == order[i]);
            }
        }
        assert forall|i: int, b: usize|
            #![trigger order[i], remaining.contains(b)]
            adopted.len() <= i < order.len() && remaining.contains(b) && !order.take(i).contains(b)
                && is_ready(bridges, order.take(i), b) implies order[i] <= b by {
            let k = choose|k: int| 0 <= k < remaining.len() && remaining[k] == b;
            if i == adopted.len() {
                assert(order.take(i) =~= adopted);
                if k < at {
                    assert(!is_ready(bridges, adopted, remaining[k]));
                } else if k > at {
                    assert(remaining[at] < remaining[k]);
                }
            } else {
                assert(order.take(i)[adopted.len() as int] == one);
                assert(order.take(i).contains(one));
                assert(b != one);
                assert(left[if k < at {
                    k
                } else {
                    k - 1
                }] == b);
                assert(left.contains(b));
            }
        }
    } else {
        assert(order =~= adopted);
    }
}

/// Bridges are adopted as early as they can be: at each place stands the earliest
/// bridge that is not adopted yet and whose dependencies all are.
pub proof fn lemma_adopted_early(bridges: Seq<BridgeView>)
    requires
        bridges.len() <= usize::MAX,
        adoption(bridges, Seq::empty(), places(bridges.len())) is Some,
    ensures
        ({
            let order = adoption(bridges, Seq::empty(), places(bridges.len()))->0;
            &&& order.len() == bridges.len()
            &&& forall|i: int, b: usize|
                #![trigger order[i], is_ready(bridges, order.take(i), b)]
                0 <= i < order.len() && b < bridges.len() && !order.take(i).contains(b) && is_ready(
                    bridges,
                    order.take(i),
                    b,
                ) ==> order[i] <= b
        }),
{
    let all = places(bridges.len());
    lemma_adoption_earliest(bridges, Seq::empty(), all);
    let order = adoption(bridges, Seq::empty(), all)->0;
    assert forall|i: int, b: usize|
        #![trigger order[i], is_ready(bridges, order.take(i), b)]
        0 <= i < order.len() && b < bridges.len() && !order.take(i).contains(b) && is_ready(
            bridges,
            order.take(i),
            b,
        ) implies order[i] <= b by {
        assert(all[b as int] == b);
        assert(all.contains(b));
    }
}

} // verus!
