//! What a vector search returns, said of the scores' bit patterns.
use vstd::prelude::*;
use vstd::seq_lib::*;

use crate::ordinal_format::views;
use crate::ranked::{in_order, Ranked};
use crate::vector_store::{
    best_of, builds, current_rows, CurrentVectors, is_finite, is_zero, lemma_order_fault,
    lemma_upsert_keeps_rows, manifest_fault, place, published_dimension, PublishedSearchArtifact,
    rows_fault, RowView, same_number, same_vector, ScoredNode, search_fault, SearchArtifactError,
    SearchArtifactKey, SearchFault, SearchUpdateBuild, snapshot_outcome, sorted_rows, taking_part,
    update_outcome, upserted, vector_fault, VECTOR_BACKEND_VERSION, VECTOR_CONTRACT_VERSION,
    VectorBatch, vectors_fault, VectorStoreLimits, VectorUpsertChange,
};

verus! {

/// Whether the sign bit of a score is set.
pub open spec fn below_zero(score: u64) -> bool {
    score >= 0x8000_0000_0000_0000
}

/// Whether one score stands for a larger number than another: a score with a
/// clear sign bit is larger than one with the sign bit set; of two with a clear
/// sign bit the larger pattern is larger; of two with the sign bit set the smaller
/// pattern is.
pub open spec fn larger_score(left: u64, right: u64) -> bool {
    ||| !below_zero(left) && below_zero(right)
    ||| !below_zero(left) && !below_zero(right) && left > right
    ||| below_zero(left) && below_zero(right) && left < right
}

/// Whether one node stands before another: by the larger score, then by the
/// smaller identity.
pub open spec fn stands_before(left: ScoredNode, right: ScoredNode) -> bool {
    larger_score(left.score, right.score) || left.score == right.score && left.node_uuid
        < right.node_uuid
}

proof fn lemma_rank_order(left: ScoredNode, right: ScoredNode)
    ensures
        left.not_after(right) <==> stands_before(left, right) || left == right,
{
}

/// The hits of a search come in falling order of the numbers that their scores
/// stand for, and those with equal scores by rising identity.
pub proof fn lemma_hits_fall(hits: Seq<ScoredNode>, nodes: Seq<ScoredNode>, limit: usize)
    requires
        best_of(hits, nodes, limit),
    ensures
        forall|i: int, j: int|
            0 <= i < j < hits.len() ==> {
                let first = #[trigger] hits[i];
                let second = #[trigger] hits[j];
                &&& first.score != second.score ==> {
                    ||| !below_zero(first.score) && below_zero(second.score)
                    ||| !below_zero(first.score) && !below_zero(second.score) && first.score
                        > second.score
                    ||| below_zero(first.score) && below_zero(second.score) && first.score
                        < second.score
                }
                &&& first.score == second.score ==> first.node_uuid <= second.node_uuid
            },
{
    let sorted = choose|sorted: Seq<ScoredNode>|
        {
            &&& #[trigger] in_order(sorted)
            &&& sorted.to_multiset() == nodes.to_multiset()
            &&& hits == sorted.take(
                if limit < sorted.len() {
                    limit as int
                } else {
                    sorted.len() as int
                },
            )
        };
    assert forall|i: int, j: int| 0 <= i < j < hits.len() implies stands_before(
        #[trigger] hits[i],
        #[trigger] hits[j],
    ) || hits[i] == hits[j] by {
        assert(sorted[i].not_after(sorted[j]));
        lemma_rank_order(hits[i], hits[j]);
    }
}

/// The hits of a search are the best of the scored nodes: as many as were asked
/// for or as there are, each of them one of the nodes, and every node that is
/// left out stands after each of them.
pub proof fn lemma_hits_best(hits: Seq<ScoredNode>, nodes: Seq<ScoredNode>, limit: usize)
    requires
        best_of(hits, nodes, limit),
    ensures
        hits.len() == if nodes.len() < limit {
            nodes.len() as int
        } else {
            limit as int
        },
        forall|node: ScoredNode|
            #![trigger hits.to_multiset().count(node)]
            hits.to_multiset().count(node) <= nodes.to_multiset().count(node),
        forall|i: int, node: ScoredNode|
            #![trigger hits[i], nodes.to_multiset().count(node)]
            0 <= i < hits.len() && hits.to_multiset().count(node) < nodes.to_multiset().count(node)
                ==> stands_before(hits[i], node) || hits[i] == node,
{
    broadcast use group_to_multiset_ensures;

    let sorted = choose|sorted: Seq<ScoredNode>|
        {
            &&& #[trigger] in_order(sorted)
            &&& sorted.to_multiset() == nodes.to_multiset()
            &&& hits == sorted.take(
                if limit < sorted.len() {
                    limit as int
                } else {
                    sorted.len() as int
                },
            )
        };
    let rest = sorted.skip(hits.len() as int);
    assert(sorted =~= hits + rest);
    lemma_multiset_commutative(hits, rest);
    assert(sorted.to_multiset().len() == sorted.len());
    assert(nodes.to_multiset().len() == nodes.len());
    assert forall|i: int, node: ScoredNode|
        #![trigger hits[i], nodes.to_multiset().count(node)]
        0 <= i < hits.len() && hits.to_multiset().count(node) < nodes.to_multiset().count(
            node,
        ) implies stands_before(hits[i], node) || hits[i] == node by {
        assert(rest.to_multiset().count(node) > 0);
        assert(rest.contains(node));
        let at = choose|at: int| 0 <= at < rest.len() && rest[at] == node;
        assert(sorted[i].not_after(sorted[hits.len() + at]));
        lemma_rank_order(hits[i], node);
    }
}

/// A search with a smaller limit returns the first of what a search with a larger
/// one returns.
pub proof fn lemma_hits_prefix(
    few: Seq<ScoredNode>,
    many: Seq<ScoredNode>,
    nodes: Seq<ScoredNode>,
    small: usize,
    large: usize,
)
    requires
        small <= large,
        best_of(few, nodes, small),
        best_of(many, nodes, large),
    ensures
        few.len() <= many.len(),
        few == many.take(few.len() as int),
{
    broadcast use group_to_multiset_ensures;

    let a = choose|sorted: Seq<ScoredNode>|
        {
            &&& #[trigger] in_order(sorted)
            &&& sorted.to_multiset() == nodes.to_multiset()
            &&& few == sorted.take(
                if small < sorted.len() {
                    small as int
                } else {
                    sorted.len() as int
                },
            )
        };
    let b = choose|sorted: Seq<ScoredNode>|
        {
            &&& #[trigger] in_order(sorted)
            &&& sorted.to_multiset() == nodes.to_multiset()
            &&& many == sorted.take(
                if large < sorted.len() {
                    large as int
                } else {
                    sorted.len() as int
                },
            )
        };
    lemma_sorted_unique(a, b, |x: ScoredNode, y: ScoredNode| x.not_after(y));
    assert(few =~= many.take(few.len() as int));
}

/// The rows that take part in a search are those of eligible nodes, each once and
/// in their order.
pub proof fn lemma_taking_part(rows: Seq<RowView>, eligible: Set<u128>)
    requires
        rows.len() <= usize::MAX,
    ensures
        forall|i: int, j: int|
            0 <= i < j < taking_part(rows, eligible).len() ==> (#[trigger] taking_part(
                rows,
                eligible,
            )[i]) < (#[trigger] taking_part(rows, eligible)[j]),
        forall|place: usize|
            #[trigger] taking_part(rows, eligible).contains(place) <==> place < rows.len()
                && eligible.contains(rows[place as int].node_uuid),
    decreases rows.len(),
{
    let all = taking_part(rows, eligible);
    if rows.len() > 0 {
        let front = rows.drop_last();
        let before = taking_part(front, eligible);
        lemma_taking_part(front, eligible);
        assert forall|i: int| 0 <= i < before.len() implies (#[trigger] before[i]) < front.len() by {
            assert(before.contains(before[i]));
        }
        assert forall|place: usize| #[trigger] all.contains(place) <==> place < rows.len()
            && eligible.contains(rows[place as int].node_uuid) by {
            if before.contains(place) {
                let at = choose|at: int| 0 <= at < before.len() && before[at] == place;
                assert(all[at] == place);
            }
            if place == rows.len() - 1 && eligible.contains(rows.last().node_uuid) {
                assert(all[all.len() - 1] == place);
            }
            if place < front.len() {
                assert(front[place as int] == rows[place as int]);
            }
            if all.contains(place) {
                let at = choose|at: int| 0 <= at < all.len() && all[at] == place;
                if at < before.len() {
                    assert(before[at] == place);
                    assert(before.contains(place));
                }
            }
        }
    }
}

/// Whether single-precision bits are those of a finite number: the exponent bits
/// are not all set.
pub open spec fn finite_bits(bits: u32) -> bool {
    bits & 0x7f80_0000 != 0x7f80_0000
}

/// Whether single-precision bits are those of zero, of either sign.
pub open spec fn zero_bits(bits: u32) -> bool {
    bits & 0x7fff_ffff == 0
}

proof fn lemma_bits(bits: u32)
    ensures
        is_finite(bits) <==> finite_bits(bits),
        is_zero(bits) <==> zero_bits(bits),
{
    assert((bits / 8_388_608u32) % 256u32 != 255u32 <==> bits & 0x7f80_0000 != 0x7f80_0000)
        by (bit_vector);
    assert(bits == 0 || bits == 2_147_483_648u32 <==> bits & 0x7fff_ffff == 0) by (bit_vector);
    assert(bits as nat / 8_388_608 == (bits / 8_388_608u32) as nat);
}

/// Whether a vector can be stored and searched for: it has a dimension within
/// the limit, finite numbers, and one that is not zero.
pub open spec fn usable_vector(vector: Seq<u32>, limits: VectorStoreLimits) -> bool {
    &&& 0 < vector.len() <= limits.dimensions
    &&& vector.len() <= 2_147_483_647
    &&& forall|i: int| 0 <= i < vector.len() ==> finite_bits(#[trigger] vector[i])
    &&& exists|i: int| 0 <= i < vector.len() && !zero_bits(#[trigger] vector[i])
}

/// Whether rows can be stored: within the limits, with usable vectors of one
/// dimension, by strictly rising identity.
pub open spec fn usable_rows(rows: Seq<RowView>, dimension: nat, limits: VectorStoreLimits) -> bool {
    &&& rows.len() <= limits.stored_vectors
    &&& rows.len() * dimension <= limits.vector_cells
    &&& forall|i: int|
        0 <= i < rows.len() ==> (#[trigger] rows[i]).vector.len() == dimension && usable_vector(
            rows[i].vector,
            limits,
        )
    &&& forall|i: int, j: int|
        0 <= i < j < rows.len() ==> (#[trigger] rows[i]).node_uuid < (#[trigger] rows[j]).node_uuid
}

/// A vector is accepted exactly where it is usable.
pub proof fn lemma_vector_accepted(vector: Seq<u32>, limits: VectorStoreLimits)
    ensures
        vector_fault(vector, limits) is None <==> usable_vector(vector, limits),
{
    assert forall|i: int| 0 <= i < vector.len() implies is_finite(#[trigger] vector[i])
        == finite_bits(vector[i]) && is_zero(vector[i]) == zero_bits(vector[i]) by {
        lemma_bits(vector[i]);
    }
    if vector_fault(vector, limits) is None {
        let i = choose|i: int| 0 <= i < vector.len() && !is_zero(#[trigger] vector[i]);
        assert(!zero_bits(vector[i]));
    }
    if usable_vector(vector, limits) {
        let i = choose|i: int| 0 <= i < vector.len() && !zero_bits(#[trigger] vector[i]);
        assert(!is_zero(vector[i]));
    }
}

proof fn lemma_vectors_accepted(
    rows: Seq<RowView>,
    dimension: nat,
    limits: VectorStoreLimits,
    path: Seq<char>,
)
    ensures
        vectors_fault(rows, dimension, limits, path) is None <==> forall|i: int|
            0 <= i < rows.len() ==> (#[trigger] rows[i]).vector.len() == dimension && usable_vector(
                rows[i].vector,
                limits,
            ),
    decreases rows.len(),
{
    if rows.len() > 0 {
        let front = rows.drop_last();
        let last = rows.last();
        lemma_vectors_accepted(front, dimension, limits, path);
        lemma_vector_accepted(last.vector, limits);
        assert(rows[rows.len() - 1] == last);
        if vectors_fault(rows, dimension, limits, path) is None {
            assert forall|i: int| 0 <= i < rows.len() implies (#[trigger] rows[i]).vector.len()
                == dimension && usable_vector(rows[i].vector, limits) by {
                if i < front.len() {
                    assert(front[i] == rows[i]);
                }
            }
        }
        if forall|i: int|
            0 <= i < rows.len() ==> (#[trigger] rows[i]).vector.len() == dimension && usable_vector(
                rows[i].vector,
                limits,
            ) {
            assert forall|i: int| 0 <= i < front.len() implies (#[trigger] front[i]).vector.len()
                == dimension && usable_vector(front[i].vector, limits) by {
                assert(rows[i] == front[i]);
            }
        }
    }
}

/// Rows are accepted exactly where they can be stored: at the dimension that is
/// expected, or at that of the first of them where none is.
pub proof fn lemma_rows_accepted(
    rows: Seq<RowView>,
    expected: Option<usize>,
    limits: VectorStoreLimits,
    path: Seq<char>,
)
    ensures
        expected matches Some(dimension) ==> (rows_fault(rows, expected, limits, path) is None <==> {
            &&& 0 < dimension <= limits.dimensions
            &&& dimension <= 2_147_483_647
            &&& usable_rows(rows, dimension as nat, limits)
        }),
        expected is None && rows.len() > 0 ==> (rows_fault(rows, expected, limits, path) is None
            <==> usable_rows(rows, rows[0].vector.len(), limits)),
        expected is None && rows.len() == 0 ==> rows_fault(rows, expected, limits, path) is None,
{
    lemma_order_fault(rows, path);
    let dimension = match expected {
        Some(dimension) => dimension as nat,
        None => rows[0].vector.len(),
    };
    lemma_vectors_accepted(rows, dimension, limits, path);
    if expected is None && rows.len() > 0 {
        lemma_vector_accepted(rows[0].vector, limits);
    }
}

/// Whether some row is of a node.
pub open spec fn holds_node(rows: Seq<RowView>, node_uuid: u128) -> bool {
    exists|i: int| 0 <= i < rows.len() && (#[trigger] rows[i]).node_uuid == node_uuid
}

/// Whether two vectors hold the same numbers, zero being one number.
pub open spec fn equal_numbers(left: Seq<u32>, right: Seq<u32>) -> bool {
    &&& left.len() == right.len()
    &&& forall|i: int|
        0 <= i < left.len() ==> (#[trigger] left[i] == right[i] || zero_bits(left[i]) && zero_bits(
            right[i],
        ))
}

proof fn lemma_equal_numbers(left: Seq<u32>, right: Seq<u32>)
    ensures
        same_vector(left, right) <==> equal_numbers(left, right),
{
    if left.len() == right.len() {
        assert forall|i: int| 0 <= i < left.len() implies same_number(#[trigger] left[i], right[i])
            == (left[i] == right[i] || zero_bits(left[i]) && zero_bits(right[i])) by {
            lemma_bits(left[i]);
            lemma_bits(right[i]);
        }
        if same_vector(left, right) {
            assert forall|i: int| 0 <= i < left.len() implies (#[trigger] left[i] == right[i]
                || zero_bits(left[i]) && zero_bits(right[i])) by {
                assert(same_number(left[i], right[i]));
            }
        }
        if equal_numbers(left, right) {
            assert forall|i: int| 0 <= i < left.len() implies same_number(
                #[trigger] left[i],
                right[i],
            ) by {
                assert(left[i] == right[i] || zero_bits(left[i]) && zero_bits(right[i]));
            }
        }
    }
}

proof fn lemma_place_found(rows: Seq<RowView>, node_uuid: u128)
    requires
        sorted_rows(rows),
    ensures
        place(rows, node_uuid) <= rows.len(),
        forall|i: int| 0 <= i < place(rows, node_uuid) ==> (#[trigger] rows[i]).node_uuid < node_uuid,
        forall|i: int|
            place(rows, node_uuid) <= i < rows.len() ==> (#[trigger] rows[i]).node_uuid
                >= node_uuid,
        holds_node(rows, node_uuid) <==> place(rows, node_uuid) < rows.len() && rows[place(
            rows,
            node_uuid,
        ) as int].node_uuid == node_uuid,
    decreases rows.len(),
{
    if rows.len() > 0 && rows[0].node_uuid < node_uuid {
        let rest = rows.drop_first();
        assert forall|i: int, j: int| 0 <= i < j < rest.len() implies (#[trigger] rest[i]).node_uuid
            < (#[trigger] rest[j]).node_uuid by {
            assert(rows[i + 1].node_uuid < rows[j + 1].node_uuid);
        }
        lemma_place_found(rest, node_uuid);
        assert forall|i: int| 0 <= i < place(rows, node_uuid) implies (#[trigger] rows[i]).node_uuid
            < node_uuid by {
            if i > 0 {
                assert(rest[i - 1] == rows[i]);
            }
        }
        assert forall|i: int| place(rows, node_uuid) <= i < rows.len() implies (
        #[trigger] rows[i]).node_uuid >= node_uuid by {
            assert(rest[i - 1] == rows[i]);
        }
    }
    let at = place(rows, node_uuid) as int;
    if holds_node(rows, node_uuid) {
        let i = choose|i: int| 0 <= i < rows.len() && (#[trigger] rows[i]).node_uuid == node_uuid;
        assert(i >= at);
        if i > at {
            assert(rows[at].node_uuid < rows[i].node_uuid);
        }
    }
}

/// An update touches one node. The rows of all others stay as they were, rows
/// stay in order, and the node's own row is the new one; unless it already held
/// the same numbers, and then nothing changes. Rows grow by one exactly where the
/// node had none.
pub proof fn lemma_upsert_one_row(
    rows: Seq<RowView>,
    row: RowView,
    limits: VectorStoreLimits,
    change: VectorUpsertChange,
    after: Seq<RowView>,
)
    requires
        row.vector.len() <= usize::MAX,
        upserted(rows, row, limits) == Ok::<
            (VectorUpsertChange, Seq<RowView>),
            SearchFault,
                >((change, after)),
    ensures
        usable_rows(after, row.vector.len(), limits),
        forall|other: RowView|
            other.node_uuid != row.node_uuid ==> (#[trigger] after.contains(other)
                <==> rows.contains(other)),
        change is Changed ==> after.contains(row),
        change is Unchanged ==> after == rows,
        change is Unchanged <==> exists|i: int|
            0 <= i < rows.len() && (#[trigger] rows[i]).node_uuid == row.node_uuid && equal_numbers(
                rows[i].vector,
                row.vector,
            ),
        after.len() == rows.len() + if holds_node(rows, row.node_uuid) {
            0int
        } else {
            1
        },
{
    let path = "<memory>"@;
    let dimension = row.vector.len() as usize;
    lemma_rows_accepted(rows, Some(dimension), limits, path);
    lemma_upsert_keeps_rows(rows, row, limits);
    lemma_rows_accepted(after, Some(dimension), limits, path);
    lemma_place_found(rows, row.node_uuid);
    let at = place(rows, row.node_uuid) as int;
    if holds_node(rows, row.node_uuid) {
        lemma_equal_numbers(rows[at].vector, row.vector);
        assert forall|i: int|
            0 <= i < rows.len() && (#[trigger] rows[i]).node_uuid == row.node_uuid implies i
            == at by {
            if i > at {
                assert(rows[at].node_uuid < rows[i].node_uuid);
            }
        }
    }
    if change is Changed {
        assert(after[at] == row);
        assert forall|other: RowView| other.node_uuid != row.node_uuid implies (
        #[trigger] after.contains(other) <==> rows.contains(other)) by {
            if after.contains(other) {
                let i = choose|i: int| 0 <= i < after.len() && after[i] == other;
                if holds_node(rows, row.node_uuid) || i < at {
                    assert(rows[i] == other);
                } else {
                    assert(rows[i - 1] == other);
                }
            }
            if rows.contains(other) {
                let i = choose|i: int| 0 <= i < rows.len() && rows[i] == other;
                if holds_node(rows, row.node_uuid) || i < at {
                    assert(after[i] == other);
                } else {
                    assert(after[i + 1] == other);
                }
            }
        }
    }
}

/// An update succeeds exactly where the vector is usable, the rows can be stored
/// at its dimension, and a node that is new to them still has room.
pub proof fn lemma_upsert_accepted(rows: Seq<RowView>, row: RowView, limits: VectorStoreLimits)
    requires
        row.vector.len() <= usize::MAX,
    ensures
        upserted(rows, row, limits) is Ok <==> {
            &&& usable_vector(row.vector, limits)
            &&& usable_rows(rows, row.vector.len(), limits)
            &&& !holds_node(rows, row.node_uuid) ==> {
                &&& rows.len() < limits.stored_vectors
                &&& (rows.len() + 1) * row.vector.len() <= limits.vector_cells
            }
        },
{
    lemma_vector_accepted(row.vector, limits);
    lemma_rows_accepted(rows, Some(row.vector.len() as usize), limits, "<memory>"@);
    if usable_rows(rows, row.vector.len(), limits) {
        lemma_place_found(rows, row.node_uuid);
    }
}

/// A search is admitted exactly where its query is usable, the rows can be stored
/// at its dimension, no more nodes are eligible than allowed, and it asks for at
/// least one hit and for no more than allowed.
pub proof fn lemma_search_admitted(
    rows: Seq<RowView>,
    query: Seq<u32>,
    eligible: Set<u128>,
    limit: usize,
    limits: VectorStoreLimits,
)
    requires
        query.len() <= usize::MAX,
    ensures
        search_fault(rows, query, eligible, limit, limits) is None <==> {
            &&& usable_vector(query, limits)
            &&& usable_rows(rows, query.len(), limits)
            &&& eligible.len() <= limits.eligible_nodes
            &&& 0 < limit <= limits.results
        },
{
    lemma_vector_accepted(query, limits);
    lemma_rows_accepted(rows, Some(query.len() as usize), limits, "<memory>"@);
}

/// A snapshot that can be read is within the byte limit and holds rows that can
/// be stored at its dimension.
pub proof fn lemma_snapshot_usable(
    file_bytes: u64,
    batches: Seq<VectorBatch>,
    dimension: usize,
    limits: VectorStoreLimits,
    path: Seq<char>,
)
    ensures
        snapshot_outcome(file_bytes, batches, dimension, limits, path) matches Ok(rows)
            ==> file_bytes <= limits.parquet_bytes && usable_rows(rows, dimension as nat, limits),
{
    if let Ok(rows) = snapshot_outcome(file_bytes, batches, dimension, limits, path) {
        lemma_rows_accepted(rows, Some(dimension), limits, path);
    }
}

/// A publication is accepted for a key and a dimension exactly where it is a
/// completed one of this backend and contract, of the same kind, label and space,
/// over no properties, and of that dimension. The dimension that it is read with
/// is the one that it records.
pub proof fn lemma_publication_accepted(
    artifact: PublishedSearchArtifact,
    key: SearchArtifactKey,
    dimension: u32,
)
    ensures
        manifest_fault(artifact, key, dimension) is None <==> {
            &&& artifact.manifest.completed
            &&& artifact.manifest.backend_version@ == VECTOR_BACKEND_VERSION@
            &&& artifact.manifest.contract_version@ == VECTOR_CONTRACT_VERSION@
            &&& artifact.manifest.index_kind == key.kind
            &&& artifact.manifest.label@ == key.label@
            &&& artifact.manifest.space is Some <==> key.space is Some
            &&& artifact.manifest.space is Some ==> artifact.manifest.space->0@ == key.space->0@
            &&& artifact.manifest.properties is None
            &&& artifact.manifest.dimension == Some(dimension)
        },
        published_dimension(artifact, Ok::<SearchArtifactKey, SearchArtifactError>(key)) matches Ok(
            stored,
        ) ==> artifact.manifest.dimension == Some(stored) && artifact.manifest.space is Some
            && manifest_fault(artifact, key, stored) is None,
{
}

/// Nothing is published for a node that is not a member, nor for a vector that is
/// not usable. The current publication is kept only where there is one. What is
/// published can be stored and holds the new vector.
pub proof fn lemma_update_published(
    build: Result<SearchUpdateBuild, SearchArtifactError>,
    current: Option<CurrentVectors>,
    key: SearchArtifactKey,
    member: bool,
    row: RowView,
    limits: VectorStoreLimits,
)
    requires
        row.vector.len() <= usize::MAX,
        builds(build, update_outcome(current, key, member, row, limits)),
    ensures
        build is Ok ==> member && usable_vector(row.vector, limits),
        build matches Ok(SearchUpdateBuild::ReuseCurrent) ==> current is Some,
        build matches Ok(SearchUpdateBuild::Publish(rows)) ==> usable_rows(
            views(rows@),
            row.vector.len(),
            limits,
        ) && views(rows@).contains(row),
{
    lemma_vector_accepted(row.vector, limits);
    if let Ok((change, after)) = update_outcome(current, key, member, row, limits) {
        let rows = current_rows(current, key, row.vector.len(), limits)->Ok_0;
        lemma_upsert_one_row(rows, row, limits, change, after);
    }
}

} // verus!
