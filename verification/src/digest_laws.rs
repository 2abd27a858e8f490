//! What the digests of topology deltas and mappings cover.
use vstd::prelude::*;
use vstd::utf8::*;

use crate::bytes::{be_bytes, lemma_be_bytes_len, lemma_be_value_of_bytes, lemma_pow256_words};
use crate::commitments::mapping_bytes;
use crate::construction_laws::lemma_split;
use crate::digest::sha256_hex;
use crate::records::{ForwardRecord, UuidRecord};
use crate::topology_delta::{
    delta_bytes, DeltaModel, is_delta_digest, sorted_form, tagged_nodes, tagged_uuids,
    uuid_records,
};

verus! {

spec fn node_part(tag: u8, node: ForwardRecord) -> Seq<u8> {
    seq![tag] + be_bytes(node.uuid as nat, 16) + be_bytes(node.node_id as nat, 8)
}

spec fn uuid_part(tag: u8, record: UuidRecord) -> Seq<u8> {
    seq![tag] + be_bytes(record.uuid as nat, 16)
}

proof fn lemma_nodes_front(tag: u8, nodes: Seq<ForwardRecord>)
    requires
        nodes.len() > 0,
    ensures
        tagged_nodes(tag, nodes) == node_part(tag, nodes[0]) + tagged_nodes(tag, nodes.skip(1)),
    decreases nodes.len(),
{
    let front = nodes.drop_last();
    let rest = nodes.skip(1);
    if nodes.len() == 1 {
        assert(front =~= Seq::<ForwardRecord>::empty());
        assert(rest =~= Seq::<ForwardRecord>::empty());
        assert(tagged_nodes(tag, nodes) =~= node_part(tag, nodes[0]) + tagged_nodes(tag, rest));
    } else {
        lemma_nodes_front(tag, front);
        assert(rest.drop_last() =~= front.skip(1));
        assert(rest.last() == nodes.last());
        assert(tagged_nodes(tag, nodes) =~= node_part(tag, nodes[0]) + tagged_nodes(tag, rest));
    }
}

proof fn lemma_uuids_front(tag: u8, uuids: Seq<UuidRecord>)
    requires
        uuids.len() > 0,
    ensures
        tagged_uuids(tag, uuids) == uuid_part(tag, uuids[0]) + tagged_uuids(tag, uuids.skip(1)),
    decreases uuids.len(),
{
    let front = uuids.drop_last();
    let rest = uuids.skip(1);
    if uuids.len() == 1 {
        assert(front =~= Seq::<UuidRecord>::empty());
        assert(rest =~= Seq::<UuidRecord>::empty());
        assert(tagged_uuids(tag, uuids) =~= uuid_part(tag, uuids[0]) + tagged_uuids(tag, rest));
    } else {
        lemma_uuids_front(tag, front);
        assert(rest.drop_last() =~= front.skip(1));
        assert(rest.last() == uuids.last());
        assert(tagged_uuids(tag, uuids) =~= uuid_part(tag, uuids[0]) + tagged_uuids(tag, rest));
    }
}

proof fn lemma_node_part(tag: u8, left: ForwardRecord, right: ForwardRecord)
    ensures
        node_part(tag, left).len() == 25,
        node_part(tag, left)[0] == tag,
        node_part(tag, left) == node_part(tag, right) ==> left == right,
{
    lemma_pow256_words();
    lemma_be_value_of_bytes(left.uuid as nat, 16);
    lemma_be_value_of_bytes(right.uuid as nat, 16);
    lemma_be_value_of_bytes(left.node_id as nat, 8);
    lemma_be_value_of_bytes(right.node_id as nat, 8);
    if node_part(tag, left) == node_part(tag, right) {
        let (a, b) = (be_bytes(left.uuid as nat, 16), be_bytes(right.uuid as nat, 16));
        let (c, d) = (be_bytes(left.node_id as nat, 8), be_bytes(right.node_id as nat, 8));
        lemma_split(seq![tag] + a, c, seq![tag] + b, d);
        lemma_split(seq![tag], a, seq![tag], b);
    }
}

proof fn lemma_uuid_part(tag: u8, left: UuidRecord, right: UuidRecord)
    ensures
        uuid_part(tag, left).len() == 17,
        uuid_part(tag, left)[0] == tag,
        uuid_part(tag, left) == uuid_part(tag, right) ==> left == right,
{
    lemma_pow256_words();
    lemma_be_value_of_bytes(left.uuid as nat, 16);
    lemma_be_value_of_bytes(right.uuid as nat, 16);
    if uuid_part(tag, left) == uuid_part(tag, right) {
        let (a, b) = (be_bytes(left.uuid as nat, 16), be_bytes(right.uuid as nat, 16));
        lemma_split(seq![tag], a, seq![tag], b);
    }
}

/// The four lists of a delta, in UUID order.
struct Lists {
    nodes: Seq<ForwardRecord>,
    edges: Seq<UuidRecord>,
    deleted_nodes: Seq<ForwardRecord>,
    deleted_edges: Seq<UuidRecord>,
}

spec fn body(lists: Lists) -> Seq<u8> {
    tagged_nodes(0, lists.nodes) + (tagged_uuids(1, lists.edges) + (tagged_nodes(
        2,
        lists.deleted_nodes,
    ) + tagged_uuids(3, lists.deleted_edges)))
}

spec fn size(lists: Lists) -> nat {
    lists.nodes.len() + lists.edges.len() + lists.deleted_nodes.len() + lists.deleted_edges.len()
}

/// The tag of the first record.
spec fn first_tag(lists: Lists) -> u8 {
    if lists.nodes.len() > 0 {
        0
    } else if lists.edges.len() > 0 {
        1
    } else if lists.deleted_nodes.len() > 0 {
        2
    } else {
        3
    }
}

/// The bytes of the first record.
spec fn first_part(lists: Lists) -> Seq<u8> {
    if lists.nodes.len() > 0 {
        node_part(0, lists.nodes[0])
    } else if lists.edges.len() > 0 {
        uuid_part(1, lists.edges[0])
    } else if lists.deleted_nodes.len() > 0 {
        node_part(2, lists.deleted_nodes[0])
    } else {
        uuid_part(3, lists.deleted_edges[0])
    }
}

/// The lists without the first record.
spec fn others(lists: Lists) -> Lists {
    if lists.nodes.len() > 0 {
        Lists { nodes: lists.nodes.skip(1), ..lists }
    } else if lists.edges.len() > 0 {
        Lists { edges: lists.edges.skip(1), ..lists }
    } else if lists.deleted_nodes.len() > 0 {
        Lists { deleted_nodes: lists.deleted_nodes.skip(1), ..lists }
    } else {
        Lists { deleted_edges: lists.deleted_edges.skip(1), ..lists }
    }
}

proof fn lemma_body_front(lists: Lists)
    requires
        size(lists) > 0,
    ensures
        body(lists) == first_part(lists) + body(others(lists)),
        first_part(lists).len() == if first_tag(lists) == 0 || first_tag(lists) == 2 {
            25int
        } else {
            17
        },
        body(lists)[0] == first_tag(lists),
        size(others(lists)) == size(lists) - 1,
{
    if lists.nodes.len() > 0 {
        lemma_nodes_front(0, lists.nodes);
        lemma_node_part(0, lists.nodes[0], lists.nodes[0]);
    } else if lists.edges.len() > 0 {
        lemma_uuids_front(1, lists.edges);
        lemma_uuid_part(1, lists.edges[0], lists.edges[0]);
    } else if lists.deleted_nodes.len() > 0 {
        lemma_nodes_front(2, lists.deleted_nodes);
        lemma_node_part(2, lists.deleted_nodes[0], lists.deleted_nodes[0]);
    } else {
        lemma_uuids_front(3, lists.deleted_edges);
        lemma_uuid_part(3, lists.deleted_edges[0], lists.deleted_edges[0]);
    }
    assert(body(lists) =~= first_part(lists) + body(others(lists)));
}

proof fn lemma_body_same(left: Lists, right: Lists)
    requires
        body(left) == body(right),
    ensures
        left.nodes == right.nodes,
        left.edges == right.edges,
        left.deleted_nodes == right.deleted_nodes,
        left.deleted_edges == right.deleted_edges,
    decreases size(left) + size(right),
{
    if size(left) > 0 {
        lemma_body_front(left);
    } else {
        assert(body(left) =~= Seq::<u8>::empty());
    }
    if size(right) > 0 {
        lemma_body_front(right);
    } else {
        assert(body(right) =~= Seq::<u8>::empty());
    }
    if size(left) > 0 && size(right) > 0 {
        assert(first_tag(left) == first_tag(right));
        lemma_split(
            first_part(left),
            body(others(left)),
            first_part(right),
            body(others(right)),
        );
        lemma_body_same(others(left), others(right));
        if left.nodes.len() > 0 {
            lemma_node_part(0, left.nodes[0], right.nodes[0]);
            assert(left.nodes =~= seq![left.nodes[0]] + left.nodes.skip(1));
            assert(right.nodes =~= seq![right.nodes[0]] + right.nodes.skip(1));
        } else if left.edges.len() > 0 {
            lemma_uuid_part(1, left.edges[0], right.edges[0]);
            assert(left.nodes =~= right.nodes);
            assert(left.edges =~= seq![left.edges[0]] + left.edges.skip(1));
            assert(right.edges =~= seq![right.edges[0]] + right.edges.skip(1));
        } else if left.deleted_nodes.len() > 0 {
            lemma_node_part(2, left.deleted_nodes[0], right.deleted_nodes[0]);
            assert(left.nodes =~= right.nodes);
            assert(left.edges =~= right.edges);
            assert(left.deleted_nodes =~= seq![left.deleted_nodes[0]] + left.deleted_nodes.skip(1));
            assert(right.deleted_nodes =~= seq![right.deleted_nodes[0]] + right.deleted_nodes.skip(
                1,
            ));
        } else {
            lemma_uuid_part(3, left.deleted_edges[0], right.deleted_edges[0]);
            assert(left.nodes =~= right.nodes);
            assert(left.edges =~= right.edges);
            assert(left.deleted_nodes =~= right.deleted_nodes);
            assert(left.deleted_edges =~= seq![left.deleted_edges[0]] + left.deleted_edges.skip(1));
            assert(right.deleted_edges =~= seq![right.deleted_edges[0]] + right.deleted_edges.skip(
                1,
            ));
        }
    } else {
        assert(left.nodes =~= right.nodes);
        assert(left.edges =~= right.edges);
        assert(left.deleted_nodes =~= right.deleted_nodes);
        assert(left.deleted_edges =~= right.deleted_edges);
    }
}

proof fn lemma_joined_parts(a: Seq<u8>, b: Seq<u8>, c: Seq<u8>, d: Seq<u8>, e: Seq<u8>)
    ensures
        a + b + c + d + e == a + (b + (c + (d + e))),
{
    assert(a + b + c + d + e =~= a + (b + (c + (d + e))));
}

proof fn lemma_hashed(lists: Lists)
    ensures
        delta_bytes(lists.nodes, lists.edges, lists.deleted_nodes, lists.deleted_edges)
            == encode_utf8("graphforge/uuid-index-topology-delta/v1"@) + body(lists),
{
    lemma_joined_parts(
        encode_utf8("graphforge/uuid-index-topology-delta/v1"@),
        tagged_nodes(0, lists.nodes),
        tagged_uuids(1, lists.edges),
        tagged_nodes(2, lists.deleted_nodes),
        tagged_uuids(3, lists.deleted_edges),
    );
}

/// What is hashed for a delta tells its lists: the same bytes come only from the
/// same nodes, edges and deletions.
pub proof fn lemma_delta_bytes_cover(
    nodes: Seq<ForwardRecord>,
    edges: Seq<UuidRecord>,
    deleted_nodes: Seq<ForwardRecord>,
    deleted_edges: Seq<UuidRecord>,
    other_nodes: Seq<ForwardRecord>,
    other_edges: Seq<UuidRecord>,
    other_deleted_nodes: Seq<ForwardRecord>,
    other_deleted_edges: Seq<UuidRecord>,
)
    requires
        delta_bytes(nodes, edges, deleted_nodes, deleted_edges) == delta_bytes(
            other_nodes,
            other_edges,
            other_deleted_nodes,
            other_deleted_edges,
        ),
    ensures
        nodes == other_nodes,
        edges == other_edges,
        deleted_nodes == other_deleted_nodes,
        deleted_edges == other_deleted_edges,
{
    let left = Lists { nodes, edges, deleted_nodes, deleted_edges };
    let right = Lists {
        nodes: other_nodes,
        edges: other_edges,
        deleted_nodes: other_deleted_nodes,
        deleted_edges: other_deleted_edges,
    };
    let tag = encode_utf8("graphforge/uuid-index-topology-delta/v1"@);
    lemma_hashed(left);
    lemma_hashed(right);
    lemma_split(tag, body(left), tag, body(right));
    lemma_body_same(left, right);
}

/// Whether lists are those of a delta in UUID order.
pub open spec fn lists_of(
    delta: DeltaModel,
    nodes: Seq<ForwardRecord>,
    edges: Seq<UuidRecord>,
    deleted_nodes: Seq<ForwardRecord>,
    deleted_edges: Seq<UuidRecord>,
) -> bool {
    &&& sorted_form(nodes, delta.nodes)
    &&& sorted_form(edges, uuid_records(delta.edges))
    &&& sorted_form(deleted_nodes, delta.deleted_nodes)
    &&& sorted_form(deleted_edges, uuid_records(delta.deleted_edges))
}

/// A digest tells the delta that it was made of: two deltas with one digest hold
/// the same nodes, edges and deletions, unless the byte strings that are hashed for
/// them differ and have the same SHA-256 digest.
pub proof fn lemma_digest_covers_delta(text: Seq<char>, left: DeltaModel, right: DeltaModel)
    requires
        is_delta_digest(text, left),
        is_delta_digest(text, right),
        forall|
            a: Seq<ForwardRecord>,
            b: Seq<UuidRecord>,
            c: Seq<ForwardRecord>,
            d: Seq<UuidRecord>,
            e: Seq<ForwardRecord>,
            f: Seq<UuidRecord>,
            g: Seq<ForwardRecord>,
            h: Seq<UuidRecord>,
        |
            #![trigger lists_of(left, a, b, c, d), lists_of(right, e, f, g, h)]
            lists_of(left, a, b, c, d) && lists_of(right, e, f, g, h) && sha256_hex(
                delta_bytes(a, b, c, d),
            ) == sha256_hex(delta_bytes(e, f, g, h)) ==> delta_bytes(a, b, c, d) == delta_bytes(
                e,
                f,
                g,
                h,
            ),
    ensures
        left.nodes.to_multiset() == right.nodes.to_multiset(),
        uuid_records(left.edges).to_multiset() == uuid_records(right.edges).to_multiset(),
        left.deleted_nodes.to_multiset() == right.deleted_nodes.to_multiset(),
        uuid_records(left.deleted_edges).to_multiset() == uuid_records(
            right.deleted_edges,
        ).to_multiset(),
{
    let (a, b, c, d) = choose|
        nodes: Seq<ForwardRecord>,
        edges: Seq<UuidRecord>,
        deleted_nodes: Seq<ForwardRecord>,
        deleted_edges: Seq<UuidRecord>,
    |
        {
            &&& sorted_form(nodes, left.nodes)
            &&& sorted_form(edges, uuid_records(left.edges))
            &&& sorted_form(deleted_nodes, left.deleted_nodes)
            &&& sorted_form(deleted_edges, uuid_records(left.deleted_edges))
            &&& text == sha256_hex(
                #[trigger] delta_bytes(nodes, edges, deleted_nodes, deleted_edges),
            )
        };
    let (e, f, g, h) = choose|
        nodes: Seq<ForwardRecord>,
        edges: Seq<UuidRecord>,
        deleted_nodes: Seq<ForwardRecord>,
        deleted_edges: Seq<UuidRecord>,
    |
        {
            &&& sorted_form(nodes, right.nodes)
            &&& sorted_form(edges, uuid_records(right.edges))
            &&& sorted_form(deleted_nodes, right.deleted_nodes)
            &&& sorted_form(deleted_edges, uuid_records(right.deleted_edges))
            &&& text == sha256_hex(
                #[trigger] delta_bytes(nodes, edges, deleted_nodes, deleted_edges),
            )
        };
    assert(lists_of(left, a, b, c, d) && lists_of(right, e, f, g, h));
    lemma_delta_bytes_cover(a, b, c, d, e, f, g, h);
}

/// What is hashed for a mapping tells its domain, its UUID and its identifier.
pub proof fn lemma_mapping_bytes_cover(
    domain: u8,
    mapping: ForwardRecord,
    other: u8,
    mapped: ForwardRecord,
)
    requires
        mapping_bytes(domain, mapping) == mapping_bytes(other, mapped),
    ensures
        domain == other,
        mapping == mapped,
{
    let tag = encode_utf8("graphforge-v4-mapping-v1\0"@);
    let (a, b) = (be_bytes(mapping.uuid as nat, 16), be_bytes(mapped.uuid as nat, 16));
    let (c, d) = (be_bytes(mapping.node_id as nat, 8), be_bytes(mapped.node_id as nat, 8));
    lemma_pow256_words();
    lemma_be_bytes_len(mapping.uuid as nat, 16);
    lemma_be_bytes_len(mapped.uuid as nat, 16);
    lemma_be_value_of_bytes(mapping.uuid as nat, 16);
    lemma_be_value_of_bytes(mapped.uuid as nat, 16);
    lemma_be_value_of_bytes(mapping.node_id as nat, 8);
    lemma_be_value_of_bytes(mapped.node_id as nat, 8);
    lemma_split(tag + seq![domain] + a, c, tag + seq![other] + b, d);
    lemma_split(tag + seq![domain], a, tag + seq![other], b);
    lemma_split(tag, seq![domain], tag, seq![other]);
    assert(seq![domain][0] == seq![other][0]);
}

} // verus!
