//! What a construction stream must be, and what the index that it makes says.
use vstd::prelude::*;
use vstd::utf8::*;

use crate::bytes::{
    be_bytes, lemma_be_bytes_len, lemma_be_value_of_bytes, lemma_pow256_words, pow256,
};
use crate::construction::{
    carry_chain, carry_step, carry_step_at, CarryModel, ConstructionIndexEncoding,
    ConstructionRecoveryIntent, counts_agree, encodes, file_models, FileModel, parent_edges,
    parent_fault, parent_nodes, parent_runs, prior_surrogate, row_fault, row_identity,
    row_surrogates, run_files, stream_canonical, stream_rows,
};
use crate::construction_history::{lemma_construction_read_back, parental, streamed};
use crate::delta_laws::{files_among, lemma_files_kept, lemma_files_made};
use crate::framing::scan;
use crate::keyed::{lemma_multiset_contains, lemma_push_contains};
use crate::membership::{IndexModel, manifest_names};
use crate::probing::{is_live, live_surrogate, membership, speaks_of, UuidIndexKind};
use crate::records::ConstructionRow;
use crate::runs::{lemma_members, members, RunModel, without_pair};

verus! {

/// Whether rows are a canonical stream: UUIDs strictly rise, the reserved bytes
/// are zero, each row is a node or an edge, and the surrogates of the nodes are
/// other than zero and strictly rise.
pub open spec fn canonical_rows(rows: Seq<ConstructionRow>) -> bool {
    &&& forall|i: int, j: int|
        0 <= i < j < rows.len() ==> (#[trigger] rows[i]).uuid < (#[trigger] rows[j]).uuid
    &&& forall|i: int|
        0 <= i < rows.len() ==> (#[trigger] rows[i]).reserved == 0 && (rows[i].kind == 0
            || rows[i].kind == 1)
    &&& forall|i: int|
        0 <= i < rows.len() && (#[trigger] rows[i]).kind == 0 ==> rows[i].surrogate != 0
    &&& forall|i: int, j: int|
        0 <= i < j < rows.len() && (#[trigger] rows[i]).kind == 0 && (#[trigger] rows[j]).kind == 0
            ==> rows[i].surrogate < rows[j].surrogate
}

proof fn lemma_prior_surrogate(rows: Seq<ConstructionRow>, i: int)
    requires
        0 <= i <= rows.len(),
    ensures
        prior_surrogate(rows, i) > 0 ==> exists|j: int|
            0 <= j < i && (#[trigger] rows[j]).kind == 0 && rows[j].surrogate == prior_surrogate(
                rows,
                i,
            ),
        (forall|j: int| 0 <= j < i ==> #[trigger] row_fault(rows, j) is None) ==> forall|j: int|
            0 <= j < i && (#[trigger] rows[j]).kind == 0 ==> rows[j].surrogate <= prior_surrogate(
                rows,
                i,
            ),
    decreases i,
{
    if i > 0 {
        lemma_prior_surrogate(rows, i - 1);
        if forall|j: int| 0 <= j < i ==> #[trigger] row_fault(rows, j) is None {
            assert(row_fault(rows, i - 1) is None);
            assert forall|j: int| 0 <= j < i && (#[trigger] rows[j]).kind == 0 implies
                rows[j].surrogate <= prior_surrogate(rows, i) by {
                if j < i - 1 {
                    assert(rows[j].surrogate <= prior_surrogate(rows, i - 1));
                }
            }
        }
        if prior_surrogate(rows, i) > 0 && rows[i - 1].kind != 0 {
            let j = choose|j: int|
                0 <= j < i - 1 && (#[trigger] rows[j]).kind == 0 && rows[j].surrogate
                    == prior_surrogate(rows, i - 1);
            assert(rows[j].surrogate == prior_surrogate(rows, i));
        }
    }
}

proof fn lemma_uuids_rise(rows: Seq<ConstructionRow>, i: int, j: int)
    requires
        forall|k: int| 0 <= k < rows.len() ==> #[trigger] row_fault(rows, k) is None,
        0 <= i < j < rows.len(),
    ensures
        rows[i].uuid < rows[j].uuid,
    decreases j - i,
{
    assert(row_fault(rows, j) is None);
    if i < j - 1 {
        lemma_uuids_rise(rows, i, j - 1);
    }
}

/// A stream is accepted exactly where it is whole rows that are canonical.
pub proof fn lemma_stream_accepted(input: Seq<u8>)
    ensures
        stream_canonical(input) <==> scan::<ConstructionRow>(input).1 is None && canonical_rows(
            scan::<ConstructionRow>(input).0,
        ),
{
    let rows = stream_rows(input);
    if stream_canonical(input) {
        assert forall|i: int, j: int| 0 <= i < j < rows.len() implies (#[trigger] rows[i]).uuid < (
        #[trigger] rows[j]).uuid by {
            lemma_uuids_rise(rows, i, j);
        }
        assert forall|i: int| 0 <= i < rows.len() implies (#[trigger] rows[i]).reserved == 0 && (
        rows[i].kind == 0 || rows[i].kind == 1) && (rows[i].kind == 0 ==> rows[i].surrogate
            != 0) by {
            assert(row_fault(rows, i) is None);
        }
        assert forall|i: int, j: int|
            0 <= i < j < rows.len() && (#[trigger] rows[i]).kind == 0 && (
            #[trigger] rows[j]).kind == 0 implies rows[i].surrogate < rows[j].surrogate by {
            lemma_prior_surrogate(rows, j);
            assert(row_fault(rows, j) is None);
        }
    }
    if scan::<ConstructionRow>(input).1 is None && canonical_rows(rows) {
        assert forall|i: int| 0 <= i < rows.len() implies #[trigger] row_fault(rows, i) is None by {
            lemma_prior_surrogate(rows, i);
            if i > 0 {
                assert(rows[i - 1].uuid < rows[i].uuid);
            }
            assert(rows[i].reserved == 0);
        }
    }
}

/// Rows of a kind.
pub open spec fn rows_of(rows: Seq<ConstructionRow>, kind: u8) -> nat
    decreases rows.len(),
{
    if rows.len() == 0 {
        0
    } else {
        rows_of(rows.drop_last(), kind) + if rows.last().kind == kind {
            1nat
        } else {
            0nat
        }
    }
}

proof fn lemma_rows_counted(rows: Seq<ConstructionRow>)
    ensures
        row_surrogates(rows).len() == rows_of(rows, 0),
        (forall|i: int|
            0 <= i < rows.len() ==> (#[trigger] rows[i]).kind == 0 || rows[i].kind == 1)
            ==> rows.len() == rows_of(rows, 0) + rows_of(rows, 1),
    decreases rows.len(),
{
    if rows.len() > 0 {
        let front = rows.drop_last();
        lemma_rows_counted(front);
        if forall|i: int|
            0 <= i < rows.len() ==> (#[trigger] rows[i]).kind == 0 || rows[i].kind == 1 {
            assert forall|i: int| 0 <= i < front.len() implies (#[trigger] front[i]).kind == 0
                || front[i].kind == 1 by {
                assert(rows[i] == front[i]);
            }
            assert(rows[rows.len() - 1] == rows.last());
        }
    }
}

/// A constructed index has the live counts of its parent and of its stream
/// together.
pub proof fn lemma_construction_counts(
    input: Seq<u8>,
    parent: Option<IndexModel>,
    live_nodes: u64,
    live_edges: u64,
)
    requires
        stream_canonical(input),
        counts_agree(input, parent, live_nodes, live_edges),
        parent_nodes(parent) + stream_rows(input).len() <= u64::MAX,
        parent_edges(parent) + stream_rows(input).len() <= u64::MAX,
    ensures
        live_nodes == (match parent {
            Some(index) => index.live_node_count as nat,
            None => 0,
        }) + rows_of(scan::<ConstructionRow>(input).0, 0),
        live_edges == (match parent {
            Some(index) => index.live_edge_count as nat,
            None => 0,
        }) + rows_of(scan::<ConstructionRow>(input).0, 1),
{
    lemma_stream_accepted(input);
    lemma_rows_counted(stream_rows(input));
}

/// A constructed index finds every node of its stream under its surrogate and
/// every edge of it, and says of every other UUID what its parent said.
pub proof fn lemma_construction_says_stream(
    encoding: ConstructionIndexEncoding,
    states: Seq<CarryModel>,
    input: Seq<u8>,
    generation: u64,
    parent_generation: u64,
    parent: Option<IndexModel>,
    live_nodes: u64,
    live_edges: u64,
    cancelled: Option<u64>,
)
    requires
        encodes(
            encoding,
            states,
            input,
            generation,
            parent_generation,
            parent,
            live_nodes,
            live_edges,
            cancelled,
        ),
        stream_canonical(input),
        parent_fault(generation, parent_generation, parent) is None,
        parental(parent),
        parent_generation < u64::MAX,
    ensures
        generation == parent_generation + 1,
        encoding.index@.current_generation == generation,
        encoding.index@.live_node_count == live_nodes,
        encoding.index@.live_edge_count == live_edges,
        forall|i: int|
            0 <= i < scan::<ConstructionRow>(input).0.len() ==> {
                let row = #[trigger] scan::<ConstructionRow>(input).0[i];
                &&& row.kind == 0 ==> live_surrogate(encoding.index@.runs, row.uuid) == Some(
                    row.surrogate,
                )
                &&& row.kind == 1 ==> is_live(encoding.index@.runs, UuidIndexKind::Edge, row.uuid)
            },
        forall|kind: UuidIndexKind, uuid: u128|
            (forall|i: int|
                0 <= i < scan::<ConstructionRow>(input).0.len() ==> (#[trigger] scan::<
                    ConstructionRow,
                >(input).0[i]).uuid != uuid) ==> #[trigger] membership(
                encoding.index@.runs,
                kind,
                uuid,
            ) == membership(parent_runs(parent), kind, uuid),
{
    let rows = stream_rows(input);
    let runs = encoding.index@.runs;
    lemma_stream_accepted(input);
    assert forall|i: int| 0 <= i < rows.len() implies {
        let row = #[trigger] rows[i];
        &&& row.kind == 0 ==> live_surrogate(runs, row.uuid) == Some(row.surrogate)
        &&& row.kind == 1 ==> is_live(runs, UuidIndexKind::Edge, row.uuid)
    } by {
        let row = rows[i];
        let kind = if row.kind == 0 {
            UuidIndexKind::Node
        } else {
            UuidIndexKind::Edge
        };
        lemma_construction_read_back(
            encoding,
            states,
            input,
            generation,
            parent_generation,
            parent,
            live_nodes,
            live_edges,
            cancelled,
            kind,
            row.uuid,
        );
        assert(speaks_of(row_identity(stream_rows(input)[i]), kind, row.uuid));
    }
    assert forall|kind: UuidIndexKind, uuid: u128|
        (forall|i: int| 0 <= i < rows.len() ==> (#[trigger] rows[i]).uuid != uuid) implies
        #[trigger] membership(runs, kind, uuid) == membership(parent_runs(parent), kind, uuid) by {
        lemma_construction_read_back(
            encoding,
            states,
            input,
            generation,
            parent_generation,
            parent,
            live_nodes,
            live_edges,
            cancelled,
            kind,
            uuid,
        );
        assert(!streamed(input, kind, uuid));
    }
}

/// Whether every run is an old one or has its files among those that were made.
spec fn accounted(state: CarryModel, prior: Seq<RunModel>) -> bool {
    forall|run: RunModel| #[trigger]
        state.runs.contains(run) ==> prior.contains(run) || files_among(run, state.created)
}

proof fn lemma_carry_accounted(
    before: CarryModel,
    after: CarryModel,
    level: u8,
    generation: u64,
    prior: Seq<RunModel>,
)
    requires
        carry_step(before, after, level, generation),
        accounted(before, prior),
    ensures
        accounted(after, prior),
{
    if members(before.runs, level).len() >= 2 {
        let merged = after.runs.last();
        let at = members(before.runs, level);
        lemma_members(before.runs, level);
        lemma_files_made(merged, before.created);
        assert(after.created =~= before.created + run_files(merged));
        assert(after.runs =~= after.runs.drop_last().push(merged));
        lemma_push_contains(after.runs.drop_last(), merged);
        assert forall|run: RunModel| #[trigger] after.runs.contains(run) implies prior.contains(run)
            || files_among(run, after.created) by {
            if run != merged {
                assert(without_pair(before.runs, level).contains(run));
                let left = before.runs.remove(at[1]);
                let i = choose|i: int|
                    0 <= i < left.remove(at[0]).len() && left.remove(at[0])[i] == run;
                let j = if i < at[0] {
                    i
                } else {
                    i + 1
                };
                assert(left[j] == run);
                let k = if j < at[1] {
                    j
                } else {
                    j + 1
                };
                assert(before.runs[k] == run);
                assert(before.runs.contains(run));
                if files_among(run, before.created) {
                    lemma_files_kept(run, before.created, run_files(merged));
                }
            }
        }
    }
}

proof fn lemma_carries_accounted(
    states: Seq<CarryModel>,
    n: int,
    generation: u64,
    prior: Seq<RunModel>,
)
    requires
        carry_chain(states, generation),
        0 <= n < states.len(),
        accounted(states[0], prior),
    ensures
        accounted(states[n], prior),
    decreases n,
{
    if n > 0 {
        lemma_carries_accounted(states, n - 1, generation, prior);
        assert(carry_step_at(states, n - 1, generation));
        lemma_carry_accounted(states[n - 1], states[n], (n - 1) as u8, generation, prior);
    }
}

/// A constructed index can be opened: every one of its runs is one of its
/// parent's, or both its files are among the artifacts.
pub proof fn lemma_construction_complete(
    encoding: ConstructionIndexEncoding,
    states: Seq<CarryModel>,
    input: Seq<u8>,
    generation: u64,
    parent_generation: u64,
    parent: Option<IndexModel>,
    live_nodes: u64,
    live_edges: u64,
    cancelled: Option<u64>,
)
    requires
        encodes(
            encoding,
            states,
            input,
            generation,
            parent_generation,
            parent,
            live_nodes,
            live_edges,
            cancelled,
        ),
    ensures
        forall|run: RunModel| #[trigger]
            encoding.index@.runs.contains(run) ==> parent_runs(parent).contains(run)
                || files_among(run, file_models(encoding.artifacts@)),
{
    let old = parent_runs(parent);
    let start = states[0];
    let index = encoding.index@;
    let fresh = start.runs.last();
    lemma_files_made(fresh, Seq::empty());
    assert(Seq::<FileModel>::empty() + run_files(fresh) =~= run_files(fresh));
    assert(accounted(start, old)) by {
        assert forall|run: RunModel| #[trigger] start.runs.contains(run) implies old.contains(run)
            || files_among(run, start.created) by {
            let i = choose|i: int| 0 <= i < start.runs.len() && start.runs[i] == run;
            if i < old.len() {
                assert(old[i] == run);
            } else if run == fresh {
                if parent_generation == 0 {
                    lemma_files_kept(
                        fresh,
                        run_files(fresh),
                        run_files(start.runs[start.runs.len() - 2]),
                    );
                }
            } else {
                lemma_files_made(run, run_files(fresh));
            }
        }
    }
    lemma_carries_accounted(states, 64, generation, old);
    let done = states.last();
    assert(done == states[64]);
    lemma_multiset_contains(index.runs, done.runs);
    assert forall|run: RunModel| #[trigger] index.runs.contains(run) implies old.contains(run)
        || files_among(run, file_models(encoding.artifacts@)) by {
        assert(done.runs.contains(run));
        if !old.contains(run) {
            let k = choose|k: int| 0 <= k < index.runs.len() && index.runs[k] == run;
            let manifest = index.manifest();
            assert(manifest.runs[k] == run.run);
            assert(manifest_names(manifest, run.run.identities.name));
            assert(manifest_names(manifest, run.run.node_surrogates.name));
            let artifacts = file_models(encoding.artifacts@);
            assert(artifacts.contains(
                FileModel { file: run.run.identities, bytes: run.identities },
            ));
            assert(artifacts.contains(
                FileModel { file: run.run.node_surrogates, bytes: run.node_surrogates },
            ));
        }
    }
}

/// Two byte strings put together tell their parts where the first parts are of one
/// length.
pub proof fn lemma_split(left: Seq<u8>, right: Seq<u8>, other: Seq<u8>, rest: Seq<u8>)
    requires
        left + right == other + rest,
        left.len() == other.len(),
    ensures
        left == other,
        right == rest,
{
    let whole = left + right;
    assert(whole.len() == left.len() + right.len());
    assert((other + rest).len() == other.len() + rest.len());
    assert forall|i: int| 0 <= i < left.len() implies left[i] == other[i] by {
        assert(whole[i] == (other + rest)[i]);
    }
    assert(left =~= other);
    assert forall|i: int| 0 <= i < right.len() implies right[i] == rest[i] by {
        assert(whole[left.len() + i] == (other + rest)[left.len() + i]);
    }
    assert(right =~= rest);
}

proof fn lemma_number_bound(left: nat, right: nat, n: nat)
    requires
        left < pow256(n),
        right < pow256(n),
        be_bytes(left, n) == be_bytes(right, n),
    ensures
        left == right,
{
    lemma_be_value_of_bytes(left, n);
    lemma_be_value_of_bytes(right, n);
}

/// The seal of a recovery intent covers all that it says: of two intents whose
/// file identifiers are of one length, the same bytes are sealed only where every
/// field is the same.
pub proof fn lemma_seal_covers(left: ConstructionRecoveryIntent, right: ConstructionRecoveryIntent)
    requires
        left.sealed_bytes() == right.sealed_bytes(),
        encode_utf8(left.source_file_id@).len() == encode_utf8(right.source_file_id@).len(),
        encode_utf8(left.identities_name@).len() <= u64::MAX,
        encode_utf8(right.identities_name@).len() <= u64::MAX,
    ensures
        left.format_version == right.format_version,
        left.generation == right.generation,
        left.parent_generation == right.parent_generation,
        left.identities_name@ == right.identities_name@,
        left.source_volume == right.source_volume,
        left.source_file_id@ == right.source_file_id@,
        left.source_bytes == right.source_bytes,
        left.source_sha256@ == right.source_sha256@,
{
    lemma_pow256_words();
    let tag = encode_utf8("graphforge.uuid-membership.construction-intent.v2"@) + seq![0u8];
    let (a0, b0) = (be_bytes(left.format_version as nat, 4), be_bytes(right.format_version as nat, 4));
    let (a1, b1) = (be_bytes(left.generation as nat, 8), be_bytes(right.generation as nat, 8));
    let (a2, b2) = (
        be_bytes(left.parent_generation as nat, 8),
        be_bytes(right.parent_generation as nat, 8),
    );
    let (an, bn) = (encode_utf8(left.identities_name@), encode_utf8(right.identities_name@));
    let (a3, b3) = (be_bytes(an.len(), 8), be_bytes(bn.len(), 8));
    let (a4, b4) = (be_bytes(left.source_volume as nat, 8), be_bytes(right.source_volume as nat, 8));
    let (a5, b5) = (encode_utf8(left.source_file_id@), encode_utf8(right.source_file_id@));
    let (a6, b6) = (be_bytes(left.source_bytes as nat, 8), be_bytes(right.source_bytes as nat, 8));
    let (a7, b7) = (encode_utf8(left.source_sha256@), encode_utf8(right.source_sha256@));
    lemma_be_bytes_len(left.format_version as nat, 4);
    lemma_be_bytes_len(right.format_version as nat, 4);
    lemma_be_bytes_len(left.generation as nat, 8);
    lemma_be_bytes_len(right.generation as nat, 8);
    lemma_be_bytes_len(left.parent_generation as nat, 8);
    lemma_be_bytes_len(right.parent_generation as nat, 8);
    lemma_be_bytes_len(an.len(), 8);
    lemma_be_bytes_len(bn.len(), 8);
    lemma_be_bytes_len(left.source_volume as nat, 8);
    lemma_be_bytes_len(right.source_volume as nat, 8);
    lemma_be_bytes_len(left.source_bytes as nat, 8);
    lemma_be_bytes_len(right.source_bytes as nat, 8);
    let (l7, r7) = (a6 + a7, b6 + b7);
    let (l6, r6) = (a5 + l7, b5 + r7);
    let (l5, r5) = (a4 + l6, b4 + r6);
    let (l4, r4) = (an + l5, bn + r5);
    let (l3, r3) = (a3 + l4, b3 + r4);
    let (l2, r2) = (a2 + l3, b2 + r3);
    let (l1, r1) = (a1 + l2, b1 + r2);
    let (l0, r0) = (a0 + l1, b0 + r1);
    assert(left.sealed_bytes() =~= tag + l0);
    assert(right.sealed_bytes() =~= tag + r0);
    lemma_split(tag, l0, tag, r0);
    lemma_split(a0, l1, b0, r1);
    lemma_split(a1, l2, b1, r2);
    lemma_split(a2, l3, b2, r3);
    lemma_split(a3, l4, b3, r4);
    lemma_number_bound(an.len(), bn.len(), 8);
    lemma_split(an, l5, bn, r5);
    lemma_split(a4, l6, b4, r6);
    lemma_split(a5, l7, b5, r7);
    lemma_split(a6, a7, b6, b7);
    lemma_number_bound(left.format_version as nat, right.format_version as nat, 4);
    lemma_number_bound(left.generation as nat, right.generation as nat, 8);
    lemma_number_bound(left.parent_generation as nat, right.parent_generation as nat, 8);
    lemma_number_bound(left.source_volume as nat, right.source_volume as nat, 8);
    lemma_number_bound(left.source_bytes as nat, right.source_bytes as nat, 8);
    encode_utf8_decode_utf8(left.identities_name@);
    encode_utf8_decode_utf8(right.identities_name@);
    encode_utf8_decode_utf8(left.source_file_id@);
    encode_utf8_decode_utf8(right.source_file_id@);
    encode_utf8_decode_utf8(left.source_sha256@);
    encode_utf8_decode_utf8(right.source_sha256@);
}

} // verus!
