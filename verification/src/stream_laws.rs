//! What reading a pinned index streams, said of the records in its files.
use vstd::prelude::*;

use crate::construction_stream::{
    all_records, ConstructionUuidIdentity, is_newest, live_only, max_surrogate, newest,
    payload_records, payloads_authentic, PinModel, record_of, streamed, streams,
    UuidConstructionSnapshotWork,
};
use crate::framing::{Framed, scan};
use crate::history::{held, holds, one_domain};
use crate::identity_codec::Identity;
use crate::index_format::RunView;
use crate::keyed::{Keyed, lemma_push_contains, ordered};
use crate::probing::{
    deleted_kind, IdentityState, kind_count, lemma_state_in_ordered, live_kind, membership,
    speaks_of, state_in, UuidIndexKind,
};
use crate::runs::RunModel;
use crate::snapshot::{IndexSight, NamedFile};

verus! {

/// Whether no record of a sequence speaks of a UUID.
pub open spec fn unknown_in(records: Seq<Identity>, uuid: u128) -> bool {
    forall|k: int| 0 <= k < records.len() ==> (#[trigger] records[k]).uuid != uuid
}

/// Whether a record stands in a run and no later run knows its UUID.
pub open spec fn newest_at(runs: Seq<Seq<Identity>>, r: int, record: Identity) -> bool {
    &&& 0 <= r < runs.len()
    &&& runs[r].contains(record)
    &&& forall|later: int|
        r < later < runs.len() ==> unknown_in(#[trigger] runs[later], record.uuid)
}

/// Whether an identity is a live record: a node's has kind 0, an edge's kind 1.
pub open spec fn is_of(identity: ConstructionUuidIdentity, record: Identity) -> bool {
    &&& identity.uuid == record.uuid
    &&& identity.surrogate == record.surrogate
    &&& identity.kind is Node ==> record.kind == 0
    &&& identity.kind is Edge ==> record.kind == 1
}

proof fn lemma_record_found(records: Seq<Identity>, uuid: u128)
    requires
        ordered(records),
    ensures
        record_of(records, uuid) is None <==> unknown_in(records, uuid),
        forall|record: Identity|
            (#[trigger] records.contains(record) && record.uuid == uuid) <==> record_of(
                records,
                uuid,
            ) == Some(record),
        record_of(records, uuid) matches Some(record) ==> record.uuid == uuid && records.contains(
            record,
        ),
    decreases records.len(),
{
    if records.len() > 0 {
        let front = records.drop_last();
        let last = records.last();
        assert(records =~= front.push(last));
        assert(ordered(front));
        lemma_record_found(front, uuid);
        lemma_push_contains(front, last);
        assert(records[records.len() - 1] == last);
        if last.uuid == uuid {
            assert forall|record: Identity| front.contains(record) implies record.uuid != uuid by {
                let i = choose|i: int| 0 <= i < front.len() && front[i] == record;
                assert(records[i].key() < records[records.len() - 1].key());
            }
        } else if unknown_in(front, uuid) {
            assert forall|k: int| 0 <= k < records.len() implies (#[trigger] records[k]).uuid
                != uuid by {
                if k < front.len() {
                    assert(front[k] == records[k]);
                }
            }
        } else {
            let k = choose|k: int| 0 <= k < front.len() && (#[trigger] front[k]).uuid == uuid;
            assert(records[k].uuid == uuid);
        }
    }
}

proof fn lemma_newest_at(runs: Seq<Seq<Identity>>, record: Identity)
    requires
        forall|r: int| 0 <= r < runs.len() ==> ordered(#[trigger] runs[r]),
    ensures
        newest(runs, record.uuid) == Some(record) <==> exists|r: int| #[trigger]
            newest_at(runs, r, record),
    decreases runs.len(),
{
    if runs.len() > 0 {
        let front = runs.drop_last();
        let last = runs.len() - 1;
        assert forall|r: int| 0 <= r < front.len() implies ordered(#[trigger] front[r]) by {
            assert(front[r] == runs[r]);
        }
        lemma_newest_at(front, record);
        lemma_record_found(runs[last], record.uuid);
        assert(runs.last() == runs[last]);
        if newest(runs, record.uuid) == Some(record) {
            if record_of(runs.last(), record.uuid) is Some {
                assert(runs[last].contains(record));
                assert(newest_at(runs, last, record));
            } else {
                let r = choose|r: int| #[trigger] newest_at(front, r, record);
                assert forall|later: int| r < later < runs.len() implies unknown_in(
                    #[trigger] runs[later],
                    record.uuid,
                ) by {
                    if later < front.len() {
                        assert(front[later] == runs[later]);
                    }
                }
                assert(newest_at(runs, r, record));
            }
        }
        if exists|r: int| #[trigger] newest_at(runs, r, record) {
            let r = choose|r: int| #[trigger] newest_at(runs, r, record);
            if r == last {
                assert(runs[last].contains(record) && record.uuid == record.uuid);
                assert(record_of(runs[last], record.uuid) == Some(record));
            } else {
                assert(unknown_in(runs[last], record.uuid));
                assert forall|later: int| r < later < front.len() implies unknown_in(
                    #[trigger] front[later],
                    record.uuid,
                ) by {
                    assert(front[later] == runs[later]);
                }
                assert(newest_at(front, r, record));
            }
        }
    }
}

proof fn lemma_live_only(merged: Seq<Identity>)
    requires
        ordered(merged),
    ensures
        forall|identity: ConstructionUuidIdentity| #[trigger]
            live_only(merged).contains(identity) <==> exists|record: Identity|
                merged.contains(record) && #[trigger] is_of(identity, record),
        forall|i: int, j: int|
            0 <= i < j < live_only(merged).len() ==> (#[trigger] live_only(merged)[i]).uuid < (
            #[trigger] live_only(merged)[j]).uuid,
        live_only(merged).len() == kind_count(merged, 0) + kind_count(merged, 1),
        of_kind(live_only(merged), UuidIndexKind::Node) == kind_count(merged, 0),
        of_kind(live_only(merged), UuidIndexKind::Edge) == kind_count(merged, 1),
    decreases merged.len(),
{
    let all = live_only(merged);
    if merged.len() > 0 {
        let front = merged.drop_last();
        let last = merged.last();
        let before = live_only(front);
        assert(merged =~= front.push(last));
        assert(ordered(front));
        lemma_live_only(front);
        lemma_push_contains(front, last);
        let identity = ConstructionUuidIdentity {
            uuid: last.uuid,
            kind: if last.kind == 0 {
                UuidIndexKind::Node
            } else {
                UuidIndexKind::Edge
            },
            surrogate: last.surrogate,
        };
        lemma_push_contains(before, identity);
        assert forall|i: int| 0 <= i < before.len() implies (#[trigger] before[i]).uuid
            < last.uuid by {
            assert(before.contains(before[i]));
            let record = choose|record: Identity|
                front.contains(record) && #[trigger] is_of(before[i], record);
            let k = choose|k: int| 0 <= k < front.len() && front[k] == record;
            assert(merged[k].key() < merged[merged.len() - 1].key());
        }
        if last.kind == 0 || last.kind == 1 {
            assert(all == before.push(identity));
            assert(is_of(identity, last));
            assert(all.drop_last() =~= before);
        }
        assert forall|other: ConstructionUuidIdentity| #[trigger]
            all.contains(other) <==> exists|record: Identity|
                merged.contains(record) && #[trigger] is_of(other, record) by {
            if all.contains(other) {
                if before.contains(other) {
                    let record = choose|record: Identity|
                        front.contains(record) && #[trigger] is_of(other, record);
                    assert(merged.contains(record));
                } else {
                    assert(other == identity);
                    assert(merged.contains(last));
                }
            }
            if exists|record: Identity| merged.contains(record) && #[trigger] is_of(other, record) {
                let record = choose|record: Identity|
                    merged.contains(record) && #[trigger] is_of(other, record);
                if front.contains(record) {
                    assert(before.contains(other));
                } else {
                    assert(record == last);
                    assert(other == identity);
                }
            }
        }
    }
}

/// Number of identities of a domain.
pub open spec fn of_kind(identities: Seq<ConstructionUuidIdentity>, kind: UuidIndexKind) -> nat
    decreases identities.len(),
{
    if identities.len() == 0 {
        0
    } else {
        of_kind(identities.drop_last(), kind) + if identities.last().kind == kind {
            1nat
        } else {
            0nat
        }
    }
}

proof fn lemma_max_surrogate(merged: Seq<Identity>)
    ensures
        forall|record: Identity|
            #[trigger] merged.contains(record) && record.kind == 0 ==> record.surrogate
                <= max_surrogate(merged),
        max_surrogate(merged) > 0 ==> exists|record: Identity| #[trigger]
            merged.contains(record) && record.kind == 0 && record.surrogate == max_surrogate(
                merged,
            ),
    decreases merged.len(),
{
    if merged.len() > 0 {
        let front = merged.drop_last();
        let last = merged.last();
        assert(merged =~= front.push(last));
        lemma_max_surrogate(front);
        lemma_push_contains(front, last);
        if max_surrogate(merged) > 0 {
            if max_surrogate(merged) == max_surrogate(front) {
                let record = choose|record: Identity| #[trigger]
                    front.contains(record) && record.kind == 0 && record.surrogate
                        == max_surrogate(front);
                assert(merged.contains(record));
            } else {
                assert(merged.contains(last));
            }
        }
    }
}

/// What is streamed is exactly the live identities of the pinned runs, in UUID
/// order: an identity is streamed where a run holds its live record, a node's or
/// an edge's, and no later run knows its UUID. One whose newest record is a
/// deletion is not streamed.
pub proof fn lemma_stream_live(
    pin: PinModel,
    sight: IndexSight,
    identities: Seq<ConstructionUuidIdentity>,
    work: UuidConstructionSnapshotWork,
)
    requires
        payloads_authentic(sight.files@, pin.manifest.runs),
        streams(pin, sight, identities, work),
    ensures
        forall|identity: ConstructionUuidIdentity| #[trigger]
            identities.contains(identity) <==> exists|r: int, record: Identity| #[trigger]
                newest_at(all_records(sight.files@, pin.manifest.runs), r, record) && is_of(
                    identity,
                    record,
                ),
        forall|r: int, record: Identity, i: int|
            #![trigger newest_at(all_records(sight.files@, pin.manifest.runs), r, record), identities[i]]
            newest_at(all_records(sight.files@, pin.manifest.runs), r, record) && 0 <= i
                < identities.len() && identities[i].uuid == record.uuid ==> record.kind == 0
                || record.kind == 1,
        forall|i: int, j: int|
            0 <= i < j < identities.len() ==> (#[trigger] identities[i]).uuid < (
            #[trigger] identities[j]).uuid,
{
    let runs = all_records(sight.files@, pin.manifest.runs);
    lemma_runs_ordered(sight.files@, pin.manifest.runs);
    let merged = choose|merged: Seq<Identity>| #[trigger]
        is_newest(merged, runs) && streamed(pin, merged) == Ok::<
            (Seq<ConstructionUuidIdentity>, UuidConstructionSnapshotWork),
            Seq<char>,
        >((identities, work));
    lemma_live_only(merged);
    assert forall|identity: ConstructionUuidIdentity| #[trigger]
        identities.contains(identity) <==> exists|r: int, record: Identity| #[trigger]
            newest_at(runs, r, record) && is_of(identity, record) by {
        if identities.contains(identity) {
            let record = choose|record: Identity|
                merged.contains(record) && #[trigger] is_of(identity, record);
            lemma_newest_at(runs, record);
            let r = choose|r: int| #[trigger] newest_at(runs, r, record);
            assert(newest_at(runs, r, record) && is_of(identity, record));
        }
        if exists|r: int, record: Identity| #[trigger]
            newest_at(runs, r, record) && is_of(identity, record) {
            let (r, record): (int, Identity) = choose|r: int, record: Identity| #[trigger]
                newest_at(runs, r, record) && is_of(identity, record);
            lemma_newest_at(runs, record);
            assert(merged.contains(record));
        }
    }
    assert forall|r: int, record: Identity, i: int|
        #![trigger newest_at(runs, r, record), identities[i]]
        newest_at(runs, r, record) && 0 <= i < identities.len() && identities[i].uuid
            == record.uuid implies record.kind == 0 || record.kind == 1 by {
        lemma_newest_at(runs, record);
        assert(identities.contains(identities[i]));
        let other = choose|other: Identity|
            merged.contains(other) && #[trigger] is_of(identities[i], other);
        assert(newest(runs, other.uuid) == Some(other));
    }
}

proof fn lemma_runs_ordered(files: Seq<NamedFile>, runs: Seq<RunView>)
    requires
        payloads_authentic(files, runs),
    ensures
        forall|r: int|
            0 <= r < all_records(files, runs).len() ==> ordered(
                #[trigger] all_records(files, runs)[r],
            ),
{
    assert forall|r: int| 0 <= r < all_records(files, runs).len() implies ordered(
        #[trigger] all_records(files, runs)[r],
    ) by {
        assert(all_records(files, runs)[r] == payload_records(files, runs[r]));
        assert(crate::construction_stream::payload_authentic(files, runs[r]));
    }
}

/// A stream has as many identities as the manifest counts live nodes and live
/// edges, and its work says how many of each. Every streamed node has a surrogate,
/// and the largest of them is reported.
pub proof fn lemma_stream_counts(
    pin: PinModel,
    sight: IndexSight,
    identities: Seq<ConstructionUuidIdentity>,
    work: UuidConstructionSnapshotWork,
)
    requires
        streams(pin, sight, identities, work),
    ensures
        work.live_nodes == pin.manifest.live_node_count,
        work.live_edges == pin.manifest.live_edge_count,
        identities.len() == work.live_nodes + work.live_edges,
        of_kind(identities, UuidIndexKind::Node) == work.live_nodes,
        of_kind(identities, UuidIndexKind::Edge) == work.live_edges,
        forall|i: int|
            0 <= i < identities.len() && (#[trigger] identities[i]).kind is Node ==> 0
                < identities[i].surrogate <= work.max_node_surrogate,
        work.live_nodes == 0 ==> work.max_node_surrogate == 0,
        work.live_nodes > 0 ==> exists|i: int|
            0 <= i < identities.len() && (#[trigger] identities[i]).kind is Node
                && identities[i].surrogate == work.max_node_surrogate,
{
    let runs = all_records(sight.files@, pin.manifest.runs);
    let merged = choose|merged: Seq<Identity>| #[trigger]
        is_newest(merged, runs) && streamed(pin, merged) == Ok::<
            (Seq<ConstructionUuidIdentity>, UuidConstructionSnapshotWork),
            Seq<char>,
        >((identities, work));
    lemma_live_only(merged);
    lemma_max_surrogate(merged);
    lemma_some_kind(identities, UuidIndexKind::Node);
    assert forall|i: int|
        0 <= i < identities.len() && (#[trigger] identities[i]).kind is Node implies 0
        < identities[i].surrogate <= work.max_node_surrogate by {
        assert(identities.contains(identities[i]));
        let record = choose|record: Identity|
            merged.contains(record) && #[trigger] is_of(identities[i], record);
        let k = choose|k: int| 0 <= k < merged.len() && merged[k] == record;
        assert(!crate::construction_stream::lacks_surrogate(merged[k]));
    }
    if work.max_node_surrogate > 0 {
        let record = choose|record: Identity| #[trigger]
            merged.contains(record) && record.kind == 0 && record.surrogate == max_surrogate(
                merged,
            );
        let identity = ConstructionUuidIdentity {
            uuid: record.uuid,
            kind: UuidIndexKind::Node,
            surrogate: record.surrogate,
        };
        assert(is_of(identity, record));
        assert(identities.contains(identity));
        let i = choose|i: int| 0 <= i < identities.len() && identities[i] == identity;
        assert(identities[i].kind is Node);
    }
}

proof fn lemma_some_kind(identities: Seq<ConstructionUuidIdentity>, kind: UuidIndexKind)
    ensures
        of_kind(identities, kind) > 0 <==> exists|i: int|
            0 <= i < identities.len() && (#[trigger] identities[i]).kind == kind,
    decreases identities.len(),
{
    if identities.len() > 0 {
        let front = identities.drop_last();
        lemma_some_kind(front, kind);
        assert(identities[identities.len() - 1] == identities.last());
        if of_kind(front, kind) > 0 {
            let i = choose|i: int| 0 <= i < front.len() && (#[trigger] front[i]).kind == kind;
            assert(identities[i].kind == kind);
        }
        if exists|i: int| 0 <= i < identities.len() && (#[trigger] identities[i]).kind == kind {
            let i = choose|i: int|
                0 <= i < identities.len() && (#[trigger] identities[i]).kind == kind;
            if i < front.len() {
                assert(front[i].kind == kind);
            }
        }
    }
}

proof fn lemma_scanned_kinds(bytes: Seq<u8>)
    ensures
        forall|i: int|
            0 <= i < scan::<Identity>(bytes).0.len() ==> (#[trigger] scan::<Identity>(
                bytes,
            ).0[i]).kind <= 3,
    decreases bytes.len(),
{
    if bytes.len() > 0 {
        if let Ok((item, width)) = Identity::front(bytes) {
            if 0 < width <= bytes.len() {
                let rest = bytes.skip(width as int);
                lemma_scanned_kinds(rest);
                let all = scan::<Identity>(bytes).0;
                assert(all == seq![item] + scan::<Identity>(rest).0);
                assert forall|i: int| 0 <= i < all.len() implies (#[trigger] all[i]).kind <= 3 by {
                    if i > 0 {
                        assert(all[i] == scan::<Identity>(rest).0[i - 1]);
                    } else {
                        assert(all[0] == item);
                    }
                }
            }
        }
    }
}

proof fn lemma_membership_newest(
    runs: Seq<RunModel>,
    records: Seq<Seq<Identity>>,
    kind: UuidIndexKind,
    uuid: u128,
)
    requires
        one_domain(runs),
        records.len() == runs.len(),
        forall|r: int|
            0 <= r < runs.len() ==> #[trigger] records[r] == runs[r].identity_records() && ordered(
                records[r],
            ),
    ensures
        membership(runs, kind, uuid) == match newest(records, uuid) {
            Some(record) => if record.kind == live_kind(kind) {
                Some(IdentityState { present: true, surrogate: record.surrogate })
            } else if record.kind == deleted_kind(kind) {
                Some(IdentityState { present: false, surrogate: record.surrogate })
            } else {
                None
            },
            None => None,
        },
    decreases runs.len(),
{
    if runs.len() > 0 {
        let front = runs.drop_last();
        let known = records.drop_last();
        let last = runs.len() - 1;
        assert forall|r: int| 0 <= r < front.len() implies #[trigger] known[r]
            == front[r].identity_records() && ordered(known[r]) by {
            assert(known[r] == records[r]);
            assert(front[r] == runs[r]);
        }
        assert(one_domain(front)) by {
            assert forall|left: Identity, right: Identity|
                #![trigger held(front, left), held(front, right)]
                held(front, left) && held(front, right) && left.uuid == right.uuid implies left.kind
                % 2 == right.kind % 2 by {
                lemma_held_before(runs, left);
                lemma_held_before(runs, right);
            }
        }
        lemma_membership_newest(front, known, kind, uuid);
        let here = runs[last].identity_records();
        assert(records[last] == here && runs.last() == runs[last] && records.last() == here);
        lemma_record_found(here, uuid);
        lemma_state_in_ordered(here, kind, uuid);
        lemma_scanned_kinds(runs[last].identities);
        match record_of(here, uuid) {
            None => {
                assert(unknown_in(here, uuid));
                assert(state_in(here, kind, uuid) is None);
            },
            Some(record) => {
                assert(here.contains(record) && record.uuid == uuid);
                let i = choose|i: int| 0 <= i < here.len() && here[i] == record;
                assert(here[i].kind <= 3);
                if speaks_of(record, kind, uuid) {
                    assert(speaks_of(here[i], kind, uuid));
                } else {
                    assert forall|k: int| 0 <= k < here.len() implies !speaks_of(
                        #[trigger] here[k],
                        kind,
                        uuid,
                    ) by {
                        if here[k].uuid == uuid {
                            assert(here.contains(here[k]));
                            assert(here[k] == record);
                        }
                    }
                    if let Some(older) = newest(known, uuid) {
                        lemma_newest_uuid(known, uuid);
                        lemma_newest_at(known, older);
                        let r = choose|r: int| #[trigger] newest_at(known, r, older);
                        let j = choose|j: int| 0 <= j < known[r].len() && known[r][j] == older;
                        assert(known[r] == front[r].identity_records());
                        assert(runs[r] == front[r]);
                        assert(runs.contains(runs[r]) && holds(runs[r], older));
                        assert(runs.contains(runs[last]) && holds(runs[last], record));
                        assert(held(runs, older) && held(runs, record));
                        lemma_scanned_kinds(runs[r].identities);
                        assert(runs[r].identity_records()[j].kind <= 3);
                    }
                }
            },
        }
    }
}

proof fn lemma_held_before(runs: Seq<RunModel>, record: Identity)
    requires
        runs.len() > 0,
        held(runs.drop_last(), record),
    ensures
        held(runs, record),
{
    let front = runs.drop_last();
    let run = choose|run: RunModel| #[trigger] front.contains(run) && holds(run, record);
    let i = choose|i: int| 0 <= i < front.len() && front[i] == run;
    assert(runs[i] == run);
    assert(runs.contains(run) && holds(run, record));
}

proof fn lemma_newest_uuid(records: Seq<Seq<Identity>>, uuid: u128)
    requires
        forall|r: int| 0 <= r < records.len() ==> ordered(#[trigger] records[r]),
    ensures
        newest(records, uuid) matches Some(record) ==> record.uuid == uuid,
    decreases records.len(),
{
    if records.len() > 0 {
        let front = records.drop_last();
        assert forall|r: int| 0 <= r < front.len() implies ordered(#[trigger] front[r]) by {
            assert(front[r] == records[r]);
        }
        lemma_newest_uuid(front, uuid);
        assert(records[records.len() - 1] == records.last());
        lemma_record_found(records.last(), uuid);
        if let Some(record) = record_of(records.last(), uuid) {
            assert(records.last().contains(record));
        }
    }
}

/// Reading an index and probing it agree: where no UUID is both a node and an
/// edge, an identity is streamed exactly where a probe finds it live with the
/// same surrogate.
pub proof fn lemma_stream_membership(
    pin: PinModel,
    sight: IndexSight,
    identities: Seq<ConstructionUuidIdentity>,
    work: UuidConstructionSnapshotWork,
    runs: Seq<RunModel>,
)
    requires
        payloads_authentic(sight.files@, pin.manifest.runs),
        streams(pin, sight, identities, work),
        runs.len() == pin.manifest.runs.len(),
        forall|r: int|
            0 <= r < runs.len() ==> (#[trigger] runs[r]).identity_records() == payload_records(
                sight.files@,
                pin.manifest.runs[r],
            ),
        one_domain(runs),
    ensures
        forall|identity: ConstructionUuidIdentity| #[trigger]
            identities.contains(identity) <==> membership(runs, identity.kind, identity.uuid)
                == Some(IdentityState { present: true, surrogate: identity.surrogate }),
{
    let records = all_records(sight.files@, pin.manifest.runs);
    lemma_runs_ordered(sight.files@, pin.manifest.runs);
    assert forall|r: int| 0 <= r < runs.len() implies #[trigger] records[r]
        == runs[r].identity_records() && ordered(records[r]) by {
        assert(records[r] == payload_records(sight.files@, pin.manifest.runs[r]));
    }
    lemma_stream_live(pin, sight, identities, work);
    assert forall|identity: ConstructionUuidIdentity| #[trigger]
        identities.contains(identity) <==> membership(runs, identity.kind, identity.uuid) == Some(
            IdentityState { present: true, surrogate: identity.surrogate },
        ) by {
        lemma_membership_newest(runs, records, identity.kind, identity.uuid);
        lemma_newest_uuid(records, identity.uuid);
        if identities.contains(identity) {
            let (r, record): (int, Identity) = choose|r: int, record: Identity| #[trigger]
                newest_at(records, r, record) && is_of(identity, record);
            lemma_newest_at(records, record);
            assert(newest(records, identity.uuid) == Some(record));
        }
        if membership(runs, identity.kind, identity.uuid) == Some(
            IdentityState { present: true, surrogate: identity.surrogate },
        ) {
            let record = newest(records, identity.uuid)->0;
            lemma_newest_at(records, record);
            let r = choose|r: int| #[trigger] newest_at(records, r, record);
            assert(newest_at(records, r, record) && is_of(identity, record));
        }
    }
}

} // verus!
