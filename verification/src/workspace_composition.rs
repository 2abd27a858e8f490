//! Rules of multi-ontology composition records: their identity, the order in
//! which bridges are adopted, and the framing of canonical records.
use vstd::prelude::*;
use vstd::slice::*;
use vstd::string::*;
use vstd::utf8::*;

use crate::bytes::{all_lower_hex, has_prefix, only_lower_hex, same_bytes, same_text, starts_with};
use crate::canonical_json::{is_one_record, one_record};
use crate::error::{corrupt, GfError};
use crate::ordinal_format::views;
use crate::private_names::{canonical_lower_hex, lower_hex_text};
use crate::ranked::{
    in_order, lemma_text_antisymmetric, lemma_text_total, lemma_text_transitive, sort_ranked,
    text_first, text_not_after, Ranked,
};
use crate::workspace::{
    is_participant, participant, ProjectParticipant, WORKSPACE_ONTOLOGY_COMPOSITION_FAMILY,
    WORKSPACE_PORTABLE_ONTOLOGY_STAGING_FAMILY,
};
use crate::workspace_snapshot::digest_text;

verus! {

/// Contract version of a composition record.
pub const WORKSPACE_ONTOLOGY_COMPOSITION_VERSION: u32 = 1;

/// Most bytes of an encoded composition record.
pub const MAX_WORKSPACE_ONTOLOGY_COMPOSITION_BYTES: usize = 16_777_216;

/// Why the identity of a composition record is not acceptable, if it is not.
pub open spec fn composition_fault(contract_version: u32, fingerprint: Seq<char>) -> Option<
    Seq<char>,
> {
    if contract_version != WORKSPACE_ONTOLOGY_COMPOSITION_VERSION {
        Some("unsupported workspace ontology composition contract"@)
    } else if !lower_hex_text(fingerprint, 64) {
        Some("workspace ontology composition fingerprint is malformed"@)
    } else {
        None
    }
}

/// Check the identity of a composition record.
pub fn validate_composition(contract_version: u32, fingerprint: &str) -> (checked: Result<
    (),
    GfError,
>)
    ensures
        match checked {
            Ok(()) => composition_fault(contract_version, fingerprint@) is None,
            Err(error) => composition_fault(contract_version, fingerprint@) is Some
                && error.is_corrupt(composition_fault(contract_version, fingerprint@)->0),
        },
{
    if contract_version != WORKSPACE_ONTOLOGY_COMPOSITION_VERSION {
        return Err(corrupt("unsupported workspace ontology composition contract"));
    }
    if !canonical_lower_hex(fingerprint, 64) {
        return Err(corrupt("workspace ontology composition fingerprint is malformed"));
    }
    Ok(())
}

/// Name of a bridge document, and its place among those that are handed over.
#[derive(Debug, PartialEq, Eq)]
pub struct BridgeKey {
    /// Identity of the bridge.
    pub bridge_id: String,
    /// Version that its author gave it.
    pub authored_version: String,
    /// Place among the bridges.
    pub place: usize,
}

/// Whether a text stands before another and is not the same.
pub open spec fn text_before(left: Seq<char>, right: Seq<char>) -> bool {
    text_not_after(encode_utf8(left), encode_utf8(right)) && encode_utf8(left) != encode_utf8(right)
}

fn stands_before(left: &String, right: &String) -> (yes: bool)
    ensures
        yes == text_before(left@, right@),
{
    let first: &[u8] = left.as_str().as_bytes();
    let second: &[u8] = right.as_str().as_bytes();
    text_first(first, second) && !same_bytes(first, second)
}

impl Ranked for BridgeKey {
    /// By identity, then by version, then by place.
    open spec fn not_after(self, other: Self) -> bool {
        ||| text_before(self.bridge_id@, other.bridge_id@)
        ||| {
            &&& !text_before(other.bridge_id@, self.bridge_id@)
            &&& {
                ||| text_before(self.authored_version@, other.authored_version@)
                ||| !text_before(other.authored_version@, self.authored_version@) && self.place
                    <= other.place
            }
        }
    }

    proof fn total(left: Self, right: Self) {
        lemma_text_order(left.bridge_id@, right.bridge_id@);
        lemma_text_order(left.authored_version@, right.authored_version@);
    }

    proof fn transitive(first: Self, second: Self, third: Self) {
        lemma_text_order(first.bridge_id@, second.bridge_id@);
        lemma_text_order(second.bridge_id@, third.bridge_id@);
        lemma_text_order(first.authored_version@, second.authored_version@);
        lemma_text_order(second.authored_version@, third.authored_version@);
        lemma_text_chain(first.bridge_id@, second.bridge_id@, third.bridge_id@);
        lemma_text_chain(
            first.authored_version@,
            second.authored_version@,
            third.authored_version@,
        );
    }

    fn comes_first(&self, other: &Self) -> (yes: bool) {
        proof {
            lemma_text_order(self.bridge_id@, other.bridge_id@);
            lemma_text_order(self.authored_version@, other.authored_version@);
        }
        if stands_before(&self.bridge_id, &other.bridge_id) {
            return true;
        }
        if stands_before(&other.bridge_id, &self.bridge_id) {
            return false;
        }
        if stands_before(&self.authored_version, &other.authored_version) {
            return true;
        }
        !stands_before(&other.authored_version, &self.authored_version) && self.place <= other.place
    }
}

/// Of two texts at most one stands before the other; neither does only where
/// they are the same.
proof fn lemma_text_order(left: Seq<char>, right: Seq<char>)
    ensures
        !(text_before(left, right) && text_before(right, left)),
        !text_before(left, right) && !text_before(right, left) ==> encode_utf8(left)
            == encode_utf8(right),
{
    let (l, r) = (encode_utf8(left), encode_utf8(right));
    lemma_text_total(l, r);
    if text_not_after(l, r) && text_not_after(r, l) {
        lemma_text_antisymmetric(l, r);
    }
}

/// What may stand before each of two texts in turn, for three texts.
proof fn lemma_text_chain(first: Seq<char>, second: Seq<char>, third: Seq<char>)
    ensures
        text_before(first, second) && !text_before(third, second) ==> text_before(first, third),
        !text_before(second, first) && text_before(second, third) ==> text_before(first, third),
        !text_before(second, first) && !text_before(third, second) ==> !text_before(third, first),
{
    lemma_text_order(first, second);
    lemma_text_order(second, third);
    lemma_text_order(first, third);
    let (a, b, c) = (encode_utf8(first), encode_utf8(second), encode_utf8(third));
    if text_not_after(a, b) && text_not_after(b, c) {
        lemma_text_transitive(a, b, c);
    }
    if text_not_after(c, a) && text_not_after(a, b) {
        lemma_text_transitive(c, a, b);
    }
    if text_not_after(b, c) && text_not_after(c, a) {
        lemma_text_transitive(b, c, a);
    }
    if text_not_after(c, b) && text_not_after(b, a) {
        lemma_text_transitive(c, b, a);
    }
}

/// Put the bridges of a composition in the order in which its record holds
/// them.
pub fn canonical_bridges(bridges: Vec<BridgeKey>) -> (sorted: Vec<BridgeKey>)
    ensures
        in_order(sorted@),
        sorted@.to_multiset() == bridges@.to_multiset(),
{
    sort_ranked(bridges)
}

/// A bridge of a composition: what it is called, and what it depends on.
#[derive(Debug, PartialEq, Eq)]
pub struct BridgeNode {
    /// Reference of the bridge.
    pub reference: String,
    /// References of the bridges that it depends on.
    pub dependencies: Vec<String>,
}

/// Model of a [`BridgeNode`].
#[verifier::ext_equal]
pub struct BridgeView {
    pub reference: Seq<char>,
    pub dependencies: Seq<Seq<char>>,
}

impl View for BridgeNode {
    type V = BridgeView;

    open spec fn view(&self) -> BridgeView {
        BridgeView { reference: self.reference@, dependencies: views(self.dependencies@) }
    }
}

/// Whether a reference is that of an adopted bridge.
pub open spec fn is_adopted(bridges: Seq<BridgeView>, adopted: Seq<usize>, reference: Seq<char>) -> bool {
    exists|k: int|
        0 <= k < adopted.len() && bridges[#[trigger] adopted[k] as int].reference == reference
}

/// Whether everything that a bridge depends on is adopted.
pub open spec fn is_ready(bridges: Seq<BridgeView>, adopted: Seq<usize>, bridge: usize) -> bool {
    forall|d: int|
        0 <= d < bridges[bridge as int].dependencies.len() ==> is_adopted(
            bridges,
            adopted,
            #[trigger] bridges[bridge as int].dependencies[d],
        )
}

/// The place of the first bridge that is ready, from a place on.
pub open spec fn first_ready(
    bridges: Seq<BridgeView>,
    adopted: Seq<usize>,
    remaining: Seq<usize>,
    from: nat,
) -> Option<nat>
    decreases remaining.len() - from,
{
    if from >= remaining.len() {
        None
    } else if is_ready(bridges, adopted, remaining[from as int]) {
        Some(from)
    } else {
        first_ready(bridges, adopted, remaining, from + 1)
    }
}

proof fn lemma_first_ready(
    bridges: Seq<BridgeView>,
    adopted: Seq<usize>,
    remaining: Seq<usize>,
    from: nat,
)
    ensures
        match first_ready(bridges, adopted, remaining, from) {
            Some(at) => from <= at < remaining.len() && is_ready(
                bridges,
                adopted,
                remaining[at as int],
            ),
            None => forall|i: int|
                from <= i < remaining.len() ==> !is_ready(bridges, adopted, #[trigger] remaining[i]),
        },
    decreases remaining.len() - from,
{
    if from < remaining.len() && !is_ready(bridges, adopted, remaining[from as int]) {
        lemma_first_ready(bridges, adopted, remaining, from + 1);
    }
}

/// The order in which bridges are adopted: of the remaining ones always the
/// first that is ready. There is none where no remaining bridge is ready.
pub open spec fn adoption(
    bridges: Seq<BridgeView>,
    adopted: Seq<usize>,
    remaining: Seq<usize>,
) -> Option<Seq<usize>>
    decreases remaining.len(),
{
    if remaining.len() == 0 {
        Some(adopted)
    } else {
        match first_ready(bridges, adopted, remaining, 0) {
            None => None,
            Some(at) => if at >= remaining.len() {
                None
            } else {
                adoption(
                    bridges,
                    adopted.push(remaining[at as int]),
                    remaining.remove(at as int),
                )
            },
        }
    }
}

/// The places of a list.
pub open spec fn places(n: nat) -> Seq<usize> {
    Seq::new(n, |i: int| i as usize)
}

fn holds_reference(bridges: &Vec<BridgeNode>, adopted: &Vec<usize>, reference: &String) -> (yes: bool)
    requires
        forall|k: int| 0 <= k < adopted@.len() ==> (#[trigger] adopted@[k]) < bridges@.len(),
    ensures
        yes == is_adopted(views(bridges@), adopted@, reference@),
{
    let mut k: usize = 0;
    while k < adopted.len()
        invariant
            k <= adopted@.len(),
            forall|j: int| 0 <= j < adopted@.len() ==> (#[trigger] adopted@[j]) < bridges@.len(),
            forall|j: int|
                0 <= j < k ==> views(bridges@)[#[trigger] adopted@[j] as int].reference
                    != reference@,
        decreases adopted.len() - k,
    {
        let at: usize = adopted[k];
        assert(views(bridges@)[at as int] == bridges@[at as int]@);
        if bridges[at].reference == *reference {
            assert(views(bridges@)[adopted@[k as int] as int].reference == reference@);
            return true;
        }
        k = k + 1;
    }
    false
}

fn bridge_ready(bridges: &Vec<BridgeNode>, adopted: &Vec<usize>, bridge: usize) -> (yes: bool)
    requires
        bridge < bridges@.len(),
        forall|k: int| 0 <= k < adopted@.len() ==> (#[trigger] adopted@[k]) < bridges@.len(),
    ensures
        yes == is_ready(views(bridges@), adopted@, bridge),
{
    let ghost all = views(bridges@);
    assert(all[bridge as int] == bridges@[bridge as int]@);
    let mut d: usize = 0;
    while d < bridges[bridge].dependencies.len()
        invariant
            bridge < bridges@.len(),
            all == views(bridges@),
            all[bridge as int] == bridges@[bridge as int]@,
            forall|k: int| 0 <= k < adopted@.len() ==> (#[trigger] adopted@[k]) < bridges@.len(),
            d <= bridges@[bridge as int].dependencies@.len(),
            forall|j: int|
                0 <= j < d ==> is_adopted(
                    all,
                    adopted@,
                    #[trigger] all[bridge as int].dependencies[j],
                ),
        decreases bridges@[bridge as int].dependencies@.len() - d,
    {
        let dependency: &String = &bridges[bridge].dependencies[d];
        assert(all[bridge as int].dependencies[d as int] == dependency@);
        if !holds_reference(bridges, adopted, dependency) {
            return false;
        }
        d = d + 1;
    }
    true
}

/// The order in which the bridges of a composition are adopted.
pub fn adoption_order(bridges: &Vec<BridgeNode>) -> (order: Result<Vec<usize>, GfError>)
    ensures
        ({
            let outcome = adoption(views(bridges@), Seq::empty(), places(bridges@.len()));
            match order {
                Ok(order) => outcome == Some(order@),
                Err(error) => outcome is None && error.is_corrupt(
                    "ontology composition bridge dependencies are unresolved or cyclic"@,
                ),
            }
        }),
{
    let ghost all = views(bridges@);
    let mut remaining: Vec<usize> = Vec::new();
    let mut i: usize = 0;
    while i < bridges.len()
        invariant
            i <= bridges@.len(),
            remaining@ == places(i as nat),
        decreases bridges.len() - i,
    {
        remaining.push(i);
        i = i + 1;
        assert(remaining@ =~= places(i as nat));
    }
    let ghost outcome = adoption(all, Seq::empty(), places(bridges@.len()));
    let mut adopted: Vec<usize> = Vec::new();
    assert(adopted@ =~= Seq::<usize>::empty());
    while remaining.len() > 0
        invariant
            all == views(bridges@),
            outcome == adoption(all, Seq::empty(), places(bridges@.len())),
            outcome == adoption(all, adopted@, remaining@),
            forall|k: int| 0 <= k < adopted@.len() ==> (#[trigger] adopted@[k]) < bridges@.len(),
            forall|k: int| 0 <= k < remaining@.len() ==> (#[trigger] remaining@[k])
                < bridges@.len(),
        decreases remaining.len(),
    {
        let mut at: usize = 0;
        while at < remaining.len() && !bridge_ready(bridges, &adopted, remaining[at])
            invariant
                at <= remaining@.len(),
                all == views(bridges@),
                forall|k: int| 0 <= k < adopted@.len() ==> (#[trigger] adopted@[k])
                    < bridges@.len(),
                forall|k: int| 0 <= k < remaining@.len() ==> (#[trigger] remaining@[k])
                    < bridges@.len(),
                first_ready(all, adopted@, remaining@, 0) == first_ready(
                    all,
                    adopted@,
                    remaining@,
                    at as nat,
                ),
            decreases remaining.len() - at,
        {
            at = at + 1;
        }
        if at >= remaining.len() {
            return Err(
                corrupt("ontology composition bridge dependencies are unresolved or cyclic"),
            );
        }
        let ghost before = remaining@;
        let next: usize = remaining.remove(at);
        assert(remaining@ =~= before.remove(at as int));
        adopted.push(next);
    }
    Ok(adopted)
}

/// Whether an order names each bridge once.
pub open spec fn names_each(order: Seq<usize>, n: nat) -> bool {
    &&& order.no_duplicates()
    &&& forall|b: usize| #[trigger] order.contains(b) <==> b < n
}

/// Whether everything that a bridge depends on comes before it.
pub open spec fn respects(bridges: Seq<BridgeView>, order: Seq<usize>) -> bool {
    forall|i: int|
        0 <= i < order.len() ==> is_ready(bridges, order.take(i), #[trigger] order[i])
}

/// Whether two lists share no bridge, name none twice, and together name each.
pub open spec fn shared_out(adopted: Seq<usize>, remaining: Seq<usize>, n: nat) -> bool {
    &&& adopted.no_duplicates()
    &&& remaining.no_duplicates()
    &&& forall|b: usize|
        #![trigger adopted.contains(b)]
        #![trigger remaining.contains(b)]
        !(adopted.contains(b) && remaining.contains(b)) && ((adopted.contains(b)
            || remaining.contains(b)) <==> b < n)
}

proof fn lemma_moved(adopted: Seq<usize>, remaining: Seq<usize>, at: int, n: nat)
    requires
        shared_out(adopted, remaining, n),
        0 <= at < remaining.len(),
    ensures
        shared_out(adopted.push(remaining[at]), remaining.remove(at), n),
{
    let moved = remaining[at];
    let after = adopted.push(moved);
    let left = remaining.remove(at);
    assert(remaining.contains(moved));
    assert(!adopted.contains(moved));
    assert forall|b: usize| after.contains(b) <==> (adopted.contains(b) || b == moved) by {
        if adopted.contains(b) {
            let i = choose|i: int| 0 <= i < adopted.len() && adopted[i] == b;
            assert(after[i] == b);
        }
        if b == moved {
            assert(after[adopted.len() as int] == b);
        }
        if after.contains(b) && b != moved {
            let i = choose|i: int| 0 <= i < after.len() && after[i] == b;
            assert(adopted[i] == b);
        }
    }
    assert forall|b: usize| left.contains(b) <==> (remaining.contains(b) && b != moved) by {
        if left.contains(b) {
            let i = choose|i: int| 0 <= i < left.len() && left[i] == b;
            if i < at {
                assert(remaining[i] == b);
            } else {
                assert(remaining[i + 1] == b);
            }
        }
        if remaining.contains(b) && b != moved {
            let i = choose|i: int| 0 <= i < remaining.len() && remaining[i] == b;
            if i < at {
                assert(left[i] == b);
            } else {
                assert(left[i - 1] == b);
            }
        }
    }
    assert forall|b: usize|
        #![trigger after.contains(b)]
        #![trigger left.contains(b)]
        !(after.contains(b) && left.contains(b)) && ((after.contains(b) || left.contains(b))
            <==> b < n) by {
        assert(!(adopted.contains(b) && remaining.contains(b)));
    }
}

proof fn lemma_adoption_sound(
    bridges: Seq<BridgeView>,
    adopted: Seq<usize>,
    remaining: Seq<usize>,
)
    requires
        shared_out(adopted, remaining, bridges.len()),
        respects(bridges, adopted),
        adoption(bridges, adopted, remaining) is Some,
    ensures
        names_each(adoption(bridges, adopted, remaining)->0, bridges.len()),
        respects(bridges, adoption(bridges, adopted, remaining)->0),
    decreases remaining.len(),
{
    if remaining.len() > 0 {
        lemma_first_ready(bridges, adopted, remaining, 0);
        let at = first_ready(bridges, adopted, remaining, 0)->0 as int;
        let after = adopted.push(remaining[at]);
        lemma_moved(adopted, remaining, at, bridges.len());
        assert forall|i: int| 0 <= i < after.len() implies is_ready(
            bridges,
            after.take(i),
            #[trigger] after[i],
        ) by {
            assert(after.take(i) =~= adopted.take(i));
            if i < adopted.len() {
                assert(after[i] == adopted[i]);
            } else {
                assert(adopted.take(i) =~= adopted);
            }
        }
        lemma_adoption_sound(bridges, after, remaining.remove(at));
    } else {
        assert forall|b: usize| #[trigger] adopted.contains(b) <==> b < bridges.len() by {
            assert(!remaining.contains(b));
        }
    }
}

proof fn lemma_places(n: nat)
    requires
        n <= usize::MAX,
    ensures
        shared_out(Seq::empty(), places(n), n),
{
    let all = places(n);
    let none = Seq::<usize>::empty();
    assert forall|b: usize|
        #![trigger none.contains(b)]
        #![trigger all.contains(b)]
        !(none.contains(b) && all.contains(b)) && ((none.contains(b) || all.contains(b)) <==> b
            < n) by {
        if b < n {
            assert(all[b as int] == b);
        }
    }
}

/// The bridges are adopted each once, and none before what it depends on.
pub proof fn lemma_adoption_order(bridges: Seq<BridgeView>)
    requires
        bridges.len() <= usize::MAX,
        adoption(bridges, Seq::empty(), places(bridges.len())) is Some,
    ensures
        ({
            let order = adoption(bridges, Seq::empty(), places(bridges.len()))->0;
            names_each(order, bridges.len()) && respects(bridges, order)
        }),
{
    lemma_places(bridges.len());
    lemma_adoption_sound(bridges, Seq::empty(), places(bridges.len()));
}

proof fn lemma_never_stuck(
    bridges: Seq<BridgeView>,
    adopted: Seq<usize>,
    remaining: Seq<usize>,
    order: Seq<usize>,
    from: int,
) -> (at: int)
    requires
        shared_out(adopted, remaining, bridges.len()),
        names_each(order, bridges.len()),
        respects(bridges, order),
        remaining.len() > 0,
        0 <= from <= order.len(),
        forall|i: int| 0 <= i < from ==> adopted.contains(#[trigger] order[i]),
    ensures
        0 <= at < remaining.len(),
        is_ready(bridges, adopted, remaining[at]),
    decreases order.len() - from,
{
    if from == order.len() {
        let b = remaining[0];
        assert(remaining.contains(b));
        assert(order.contains(b));
        let i = choose|i: int| 0 <= i < order.len() && order[i] == b;
        assert(adopted.contains(order[i]));
        assert(false);
        0
    } else {
        let b = order[from];
        assert(order.contains(b));
        if adopted.contains(b) {
            assert forall|i: int| 0 <= i < from + 1 implies adopted.contains(
                #[trigger] order[i],
            ) by {
                if i == from {
                }
            }
            lemma_never_stuck(bridges, adopted, remaining, order, from + 1)
        } else {
            assert(remaining.contains(b));
            let at = choose|at: int| 0 <= at < remaining.len() && remaining[at] == b;
            let before = order.take(from);
            assert(is_ready(bridges, before, order[from]));
            assert forall|d: int|
                0 <= d < bridges[b as int].dependencies.len() implies is_adopted(
                bridges,
                adopted,
                #[trigger] bridges[b as int].dependencies[d],
            ) by {
                let reference = bridges[b as int].dependencies[d];
                assert(is_adopted(bridges, before, reference));
                let k = choose|k: int|
                    0 <= k < before.len() && bridges[#[trigger] before[k] as int].reference
                        == reference;
                assert(before[k] == order[k]);
                assert(adopted.contains(order[k]));
                let j = choose|j: int| 0 <= j < adopted.len() && adopted[j] == order[k];
                assert(bridges[adopted[j] as int].reference == reference);
            }
            at
        }
    }
}

proof fn lemma_adoption_total(
    bridges: Seq<BridgeView>,
    adopted: Seq<usize>,
    remaining: Seq<usize>,
    order: Seq<usize>,
)
    requires
        shared_out(adopted, remaining, bridges.len()),
        names_each(order, bridges.len()),
        respects(bridges, order),
    ensures
        adoption(bridges, adopted, remaining) is Some,
    decreases remaining.len(),
{
    if remaining.len() > 0 {
        let ready = lemma_never_stuck(bridges, adopted, remaining, order, 0);
        lemma_first_ready(bridges, adopted, remaining, 0);
        assert(first_ready(bridges, adopted, remaining, 0) is Some);
        let at = first_ready(bridges, adopted, remaining, 0)->0 as int;
        lemma_moved(adopted, remaining, at, bridges.len());
        lemma_adoption_total(
            bridges,
            adopted.push(remaining[at]),
            remaining.remove(at),
            order,
        );
    }
}

/// Where the bridges can be adopted in some order, one is found.
pub proof fn lemma_adoption_found(bridges: Seq<BridgeView>, order: Seq<usize>)
    requires
        bridges.len() <= usize::MAX,
        names_each(order, bridges.len()),
        respects(bridges, order),
    ensures
        adoption(bridges, Seq::empty(), places(bridges.len())) is Some,
{
    lemma_places(bridges.len());
    lemma_adoption_total(bridges, Seq::empty(), places(bridges.len()), order);
}

/// Check the recorded fingerprint of a composition against the compiled one.
pub fn check_fingerprint(compiled: &str, recorded: &str) -> (checked: Result<(), GfError>)
    ensures
        match checked {
            Ok(()) => compiled@ == recorded@,
            Err(error) => compiled@ != recorded@ && error.is_corrupt(
                "ontology composition fingerprint does not match"@,
            ),
        },
{
    if !same_text(compiled, recorded) {
        return Err(corrupt("ontology composition fingerprint does not match"));
    }
    Ok(())
}

/// Check the size of an encoded composition.
pub fn admit_composition(length: usize) -> (admitted: Result<(), GfError>)
    ensures
        match admitted {
            Ok(()) => length <= MAX_WORKSPACE_ONTOLOGY_COMPOSITION_BYTES,
            Err(error) => length > MAX_WORKSPACE_ONTOLOGY_COMPOSITION_BYTES && error.is_corrupt(
                "workspace ontology composition exceeds size limit"@,
            ),
        },
{
    if length > MAX_WORKSPACE_ONTOLOGY_COMPOSITION_BYTES {
        return Err(corrupt("workspace ontology composition exceeds size limit"));
    }
    Ok(())
}

/// The participant of an encoded composition.
pub fn composition_participant(bytes: Vec<u8>) -> (participant: Result<ProjectParticipant, GfError>)
    ensures
        match participant {
            Ok(participant) => bytes@.len() <= MAX_WORKSPACE_ONTOLOGY_COMPOSITION_BYTES
                && is_participant(participant, WORKSPACE_ONTOLOGY_COMPOSITION_FAMILY@, bytes@),
            Err(error) => bytes@.len() > MAX_WORKSPACE_ONTOLOGY_COMPOSITION_BYTES
                && error.is_corrupt("workspace ontology composition exceeds size limit"@),
        },
{
    match admit_composition(bytes.len()) {
        Ok(()) => Ok(participant(WORKSPACE_ONTOLOGY_COMPOSITION_FAMILY, bytes)),
        Err(error) => Err(error),
    }
}

/// The participant of an encoded portable candidate.
pub fn staging_participant(bytes: Vec<u8>) -> (participant: ProjectParticipant)
    ensures
        is_participant(participant, WORKSPACE_PORTABLE_ONTOLOGY_STAGING_FAMILY@, bytes@),
{
    participant(WORKSPACE_PORTABLE_ONTOLOGY_STAGING_FAMILY, bytes)
}

/// Whether a text is a SHA-256 digest in lowercase hexadecimal behind its tag.
pub open spec fn tagged_digest(text: Seq<char>) -> bool {
    let bytes = encode_utf8(text);
    let tag = encode_utf8("sha256:"@);
    starts_with(bytes, tag) && bytes.len() == tag.len() + 64 && all_lower_hex(
        bytes.skip(tag.len() as int),
    )
}

/// Why the identity of a portable candidate is not acceptable, if it is not.
pub open spec fn staging_fault(
    contract_version: u32,
    package: Seq<char>,
    composition: Seq<char>,
) -> Option<Seq<char>> {
    if contract_version != 1 {
        Some("portable ontology staging identity is invalid"@)
    } else if !tagged_digest(package) {
        Some(digest_text("portable package"@))
    } else if !tagged_digest(composition) {
        Some(digest_text("portable composition"@))
    } else {
        None
    }
}

fn is_tagged_digest(text: &str) -> (yes: bool)
    ensures
        yes == tagged_digest(text@),
{
    let tag: &str = "sha256:";
    let front: &[u8] = tag.as_bytes();
    let bytes: &[u8] = text.as_bytes();
    if !has_prefix(bytes, front) || bytes.len() - front.len() != 64 {
        return false;
    }
    let digest: &[u8] = slice_subrange(bytes, front.len(), bytes.len());
    assert(digest@ =~= bytes@.skip(front@.len() as int));
    only_lower_hex(digest)
}

/// Check the identity of a portable candidate.
pub fn validate_staging(contract_version: u32, package: &str, composition: &str) -> (checked:
    Result<(), GfError>)
    ensures
        match checked {
            Ok(()) => staging_fault(contract_version, package@, composition@) is None,
            Err(error) => staging_fault(contract_version, package@, composition@) is Some
                && error.is_corrupt(staging_fault(contract_version, package@, composition@)->0),
        },
{
    if contract_version != 1 {
        return Err(corrupt("portable ontology staging identity is invalid"));
    }
    if !is_tagged_digest(package) {
        let mut text: String = "portable package".to_owned();
        text.append(" SHA-256 is not canonical");
        return Err(corrupt(text.as_str()));
    }
    if !is_tagged_digest(composition) {
        let mut text: String = "portable composition".to_owned();
        text.append(" SHA-256 is not canonical");
        return Err(corrupt(text.as_str()));
    }
    Ok(())
}

/// Identity of the module that an older single ontology is projected to.
pub fn legacy_ontology_id(digest: &Option<String>) -> (id: Result<String, GfError>)
    ensures
        match id {
            Ok(id) => digest matches Some(digest) && id@ == "legacy:"@ + digest@,
            Err(error) => digest is None && error.is_corrupt("legacy ontology digest is missing"@),
        },
{
    match digest {
        Some(digest) => {
            let mut id: String = "legacy:".to_owned();
            id.append(digest.as_str());
            Ok(id)
        },
        None => Err(corrupt("legacy ontology digest is missing")),
    }
}

/// Whether a module identity is the projection of an older single ontology.
pub fn is_projected_identity(ontology_id: &str) -> (yes: bool)
    ensures
        yes == starts_with(encode_utf8(ontology_id@), encode_utf8("legacy:"@)),
{
    let tag: &str = "legacy:";
    has_prefix(ontology_id.as_bytes(), tag.as_bytes())
}

/// Why a canonical record is not framed as one, or is not encoded canonically:
/// `again` is the record read and written anew.
pub open spec fn framing_fault(bytes: Seq<u8>, again: Option<Seq<u8>>, name: Seq<char>) -> Option<
    Seq<char>,
> {
    if !one_record(bytes) {
        Some(name + " is not canonical JSON plus LF"@)
    } else {
        match again {
            None => Some(name + " is malformed"@),
            Some(again) => if again != bytes {
                Some(name + " is not canonically encoded"@)
            } else {
                None
            },
        }
    }
}

/// Check the framing of a canonical record. `again` is the record read and
/// written anew; it is absent where the record cannot be read.
pub fn check_canonical_record(bytes: &[u8], again: Option<&[u8]>, name: &str) -> (checked: Result<
    (),
    GfError,
>)
    ensures
        ({
            let fault = framing_fault(
                bytes@,
                match again {
                    Some(again) => Some(again@),
                    None => None,
                },
                name@,
            );
            match checked {
                Ok(()) => fault is None,
                Err(error) => fault is Some && error.is_corrupt(fault->0),
            }
        }),
{
    let mut text: String = name.to_owned();
    if !is_one_record(bytes) {
        text.append(" is not canonical JSON plus LF");
        return Err(corrupt(text.as_str()));
    }
    match again {
        None => {
            text.append(" is malformed");
            Err(corrupt(text.as_str()))
        },
        Some(again) => if same_bytes(again, bytes) {
            Ok(())
        } else {
            text.append(" is not canonically encoded");
            Err(corrupt(text.as_str()))
        },
    }
}

} // verus!
