//! Incremental updates of the membership index: new and deleted identities
//! become a run, and equal levels are merged, the newer record winning.
use vstd::prelude::*;
use vstd::slice::*;
use vstd::string::*;
use vstd::utf8::*;

use crate::bytes::{
    ascii, be_bytes, decimal, decimal_text, push_all, push_be, sat_add, sat_mul,
    saturating_product, saturating_sum,
};
use crate::construction::{
    empty_base, file_models, FileModel, identity_prefix, named_files, published_files, run_files,
    surrogate_prefix,
};
use crate::digest::{hex_sha256, sha256_hex};
use crate::error::{GfError, storage_err};
use crate::fences::{
    wanted_blocks, wanted_bytes, wanted_items, wanted_records, wanted_sound, WantedRecords,
};
use crate::framing::{
    all_valid, find_key, Framed, lemma_pack_scanned, lemma_scan_packed, pack, scan,
};
use crate::identity_codec::Identity;
use crate::index_format::{
    authenticate_file, BlockView, file_described, FileRecord, FORMAT_VERSION, Manifest, RunRecord,
};
use crate::keyed::{
    is_ordered, is_overlay, Keyed, lemma_multiset_contains, merge_newest, ordered, sort_by_key,
    sorted,
};
use crate::membership::{
    distinct_names, has_name, IndexModel, manifest_file_names, manifest_names, names_not_in,
    UuidMembershipIndex,
};
use crate::probing::{count_identity_states, kind_count};
use crate::ranked::{in_order, lemma_multiset_images, Ranked, sort_ranked};
use crate::records::{ForwardRecord, NodeSurrogate, UuidRecord};
use crate::runs::{
    adjacent, describe_run, descriptors_valid, IndexFile, level_members, level_pair, members,
    newly_described, OpenRun, run_models, RunModel, take_pair, validate_run_descriptors,
    without_pair,
};

verus! {

/// A resolved topology delta: new nodes with their identifiers, new edges,
/// deleted nodes with their identifiers, deleted edges.
#[derive(Debug, PartialEq, Eq)]
pub struct IdentityDelta {
    /// New nodes.
    pub nodes: Vec<ForwardRecord>,
    /// New edges.
    pub edges: Vec<u128>,
    /// Deleted nodes.
    pub deleted_nodes: Vec<ForwardRecord>,
    /// Deleted edges.
    pub deleted_edges: Vec<u128>,
}

/// Model of an [`IdentityDelta`].
#[verifier::ext_equal]
pub struct DeltaModel {
    pub nodes: Seq<ForwardRecord>,
    pub edges: Seq<u128>,
    pub deleted_nodes: Seq<ForwardRecord>,
    pub deleted_edges: Seq<u128>,
}

impl View for IdentityDelta {
    type V = DeltaModel;

    open spec fn view(&self) -> DeltaModel {
        DeltaModel {
            nodes: self.nodes@,
            edges: self.edges@,
            deleted_nodes: self.deleted_nodes@,
            deleted_edges: self.deleted_edges@,
        }
    }
}

/// Nodes as identities of a kind.
pub open spec fn node_identities(nodes: Seq<ForwardRecord>, kind: u8) -> Seq<Identity> {
    Seq::new(
        nodes.len(),
        |i: int| Identity { uuid: nodes[i].uuid, kind, surrogate: nodes[i].node_id },
    )
}

/// Edges as identities of a kind.
pub open spec fn edge_identities(edges: Seq<u128>, kind: u8) -> Seq<Identity> {
    Seq::new(edges.len(), |i: int| Identity { uuid: edges[i], kind, surrogate: 0 })
}

/// Nodes as surrogate records.
pub open spec fn node_pairs(nodes: Seq<ForwardRecord>) -> Seq<NodeSurrogate> {
    Seq::new(
        nodes.len(),
        |i: int| NodeSurrogate { surrogate: nodes[i].node_id, uuid: nodes[i].uuid },
    )
}

impl DeltaModel {
    /// The identity records of the delta.
    pub open spec fn identities(self) -> Seq<Identity> {
        node_identities(self.nodes, 0) + edge_identities(self.edges, 1) + node_identities(
            self.deleted_nodes,
            2,
        ) + edge_identities(self.deleted_edges, 3)
    }

    /// The surrogate records of the delta.
    pub open spec fn surrogates(self) -> Seq<NodeSurrogate> {
        node_pairs(self.nodes) + node_pairs(self.deleted_nodes)
    }

    /// Whether every UUID occurs once and no new node has identifier zero.
    pub open spec fn identities_valid(self) -> bool {
        &&& forall|i: int, j: int|
            0 <= i < j < self.identities().len() ==> (#[trigger] self.identities()[i]).uuid != (
            #[trigger] self.identities()[j]).uuid
        &&& forall|i: int| 0 <= i < self.nodes.len() ==> (#[trigger] self.nodes[i]).node_id != 0
    }

    /// Whether every node identifier occurs once.
    pub open spec fn surrogates_valid(self) -> bool {
        forall|i: int, j: int|
            0 <= i < j < self.surrogates().len() ==> (#[trigger] self.surrogates()[i]).surrogate
                != (#[trigger] self.surrogates()[j]).surrogate
    }
}

/// Without repeated keys, sorting gives an ordered sequence; with one, it
/// does not.
pub proof fn lemma_sorted_distinct<T: Keyed>(in_order: Seq<T>, items: Seq<T>)
    requires
        sorted(in_order),
        in_order.to_multiset() == items.to_multiset(),
    ensures
        ordered(in_order) <==> forall|i: int, j: int|
            0 <= i < j < items.len() ==> (#[trigger] items[i]).key() != (#[trigger] items[j]).key(),
{
    let image = |item: T| item.key();
    lemma_multiset_images(in_order, items, image);
    let a = Seq::new(in_order.len(), |i: int| image(in_order[i]));
    let b = Seq::new(items.len(), |i: int| image(items[i]));
    if ordered(in_order) {
        assert(a.no_duplicates()) by {
            assert forall|i: int, j: int|
                0 <= i < a.len() && 0 <= j < a.len() && i != j implies a[i] != a[j] by {
                if i < j {
                    assert(in_order[i].key() < in_order[j].key());
                } else {
                    assert(in_order[j].key() < in_order[i].key());
                }
            }
        }
        a.lemma_multiset_has_no_duplicates();
        assert(forall|x: int| b.to_multiset().contains(x) ==> b.to_multiset().count(x) == 1);
        b.lemma_multiset_has_no_duplicates_conv();
        assert forall|i: int, j: int| 0 <= i < j < items.len() implies (#[trigger] items[i]).key()
            != (#[trigger] items[j]).key() by {
            assert(b[i] != b[j]);
        }
    }
    if forall|i: int, j: int|
        0 <= i < j < items.len() ==> (#[trigger] items[i]).key() != (#[trigger] items[j]).key() {
        assert(b.no_duplicates()) by {
            assert forall|i: int, j: int|
                0 <= i < b.len() && 0 <= j < b.len() && i != j implies b[i] != b[j] by {
                if i < j {
                    assert(items[i].key() != items[j].key());
                } else {
                    assert(items[j].key() != items[i].key());
                }
            }
        }
        b.lemma_multiset_has_no_duplicates();
        assert(forall|x: int| a.to_multiset().contains(x) ==> a.to_multiset().count(x) == 1);
        a.lemma_multiset_has_no_duplicates_conv();
        assert forall|i: int, j: int| 0 <= i < j < in_order.len() implies (
        #[trigger] in_order[i]).key() < (#[trigger] in_order[j]).key() by {
            assert(a[i] != a[j]);
        }
    }
}

fn push_nodes(out: &mut Vec<Identity>, nodes: &Vec<ForwardRecord>, kind: u8)
    ensures
        final(out)@ == old(out)@ + node_identities(nodes@, kind),
{
    let ghost before = out@;
    let mut i: usize = 0;
    while i < nodes.len()
        invariant
            i <= nodes@.len(),
            out@ == before + node_identities(nodes@, kind).take(i as int),
        decreases nodes.len() - i,
    {
        out.push(Identity { uuid: nodes[i].uuid, kind, surrogate: nodes[i].node_id });
        i = i + 1;
        assert(out@ =~= before + node_identities(nodes@, kind).take(i as int));
    }
    assert(node_identities(nodes@, kind).take(i as int) =~= node_identities(nodes@, kind));
}

fn push_edges(out: &mut Vec<Identity>, edges: &Vec<u128>, kind: u8)
    ensures
        final(out)@ == old(out)@ + edge_identities(edges@, kind),
{
    let ghost before = out@;
    let mut i: usize = 0;
    while i < edges.len()
        invariant
            i <= edges@.len(),
            out@ == before + edge_identities(edges@, kind).take(i as int),
        decreases edges.len() - i,
    {
        out.push(Identity { uuid: edges[i], kind, surrogate: 0 });
        i = i + 1;
        assert(out@ =~= before + edge_identities(edges@, kind).take(i as int));
    }
    assert(edge_identities(edges@, kind).take(i as int) =~= edge_identities(edges@, kind));
}

fn push_pairs(out: &mut Vec<NodeSurrogate>, nodes: &Vec<ForwardRecord>)
    ensures
        final(out)@ == old(out)@ + node_pairs(nodes@),
{
    let ghost before = out@;
    let mut i: usize = 0;
    while i < nodes.len()
        invariant
            i <= nodes@.len(),
            out@ == before + node_pairs(nodes@).take(i as int),
        decreases nodes.len() - i,
    {
        out.push(NodeSurrogate { surrogate: nodes[i].node_id, uuid: nodes[i].uuid });
        i = i + 1;
        assert(out@ =~= before + node_pairs(nodes@).take(i as int));
    }
    assert(node_pairs(nodes@).take(i as int) =~= node_pairs(nodes@));
}

/// The sorted identity and surrogate records of a delta.
#[derive(Debug, PartialEq, Eq)]
pub struct DeltaRecords {
    /// Identities in UUID order.
    pub identities: Vec<Identity>,
    /// Nodes in surrogate order.
    pub surrogates: Vec<NodeSurrogate>,
}

/// Sort the records of a delta, refusing a repeated UUID, a new node without
/// identifier and a repeated node identifier.
pub fn delta_records(delta: &IdentityDelta) -> (records: Result<DeltaRecords, GfError>)
    ensures
        match records {
            Ok(records) => {
                &&& delta@.identities_valid()
                &&& delta@.surrogates_valid()
                &&& ordered(records.identities@)
                &&& all_valid(records.identities@)
                &&& records.identities@.to_multiset() == delta@.identities().to_multiset()
                &&& ordered(records.surrogates@)
                &&& records.surrogates@.to_multiset() == delta@.surrogates().to_multiset()
            },
            Err(error) => if !delta@.identities_valid() {
                error.is_storage("new identity run contains duplicate/invalid identity"@)
            } else {
                !delta@.surrogates_valid() && error.is_storage(
                    "new node run contains duplicate surrogate"@,
                )
            },
        },
{
    let mut unsorted: Vec<Identity> = Vec::new();
    push_nodes(&mut unsorted, &delta.nodes, 0);
    push_edges(&mut unsorted, &delta.edges, 1);
    push_nodes(&mut unsorted, &delta.deleted_nodes, 2);
    push_edges(&mut unsorted, &delta.deleted_edges, 3);
    assert(unsorted@ =~= delta@.identities());
    let identities: Vec<Identity> = sort_by_key(&unsorted);
    proof {
        lemma_sorted_distinct(identities@, unsorted@);
        lemma_multiset_contains(identities@, unsorted@);
        assert forall|i: int| 0 <= i < identities@.len() implies (
        #[trigger] identities@[i]).valid() by {
            assert(identities@.contains(identities@[i]));
            let j = choose|j: int| 0 <= j < unsorted@.len() && unsorted@[j] == identities@[i];
            assert(unsorted@[j].valid());
        }
        assert(delta@.identities_valid() ==> ordered(identities@)) by {
            if delta@.identities_valid() {
                assert forall|i: int, j: int| 0 <= i < j < unsorted@.len() implies (
                #[trigger] unsorted@[i]).key() != (#[trigger] unsorted@[j]).key() by {
                    assert(delta@.identities()[i].uuid != delta@.identities()[j].uuid);
                }
            }
        }
    }
    if !is_ordered(&identities) {
        return Err(storage_err("new identity run contains duplicate/invalid identity"));
    }
    let mut i: usize = 0;
    while i < delta.nodes.len()
        invariant
            i <= delta.nodes@.len(),
            forall|j: int| 0 <= j < i ==> (#[trigger] delta@.nodes[j]).node_id != 0,
        decreases delta.nodes.len() - i,
    {
        if delta.nodes[i].node_id == 0 {
            assert(delta@.nodes[i as int].node_id == 0);
            return Err(storage_err("new identity run contains duplicate/invalid identity"));
        }
        i = i + 1;
    }
    assert(delta@.identities_valid()) by {
        assert forall|i: int, j: int| 0 <= i < j < delta@.identities().len() implies (
        #[trigger] delta@.identities()[i]).uuid != (#[trigger] delta@.identities()[j]).uuid by {
            assert(unsorted@[i].key() != unsorted@[j].key());
        }
    }
    let mut pairs: Vec<NodeSurrogate> = Vec::new();
    push_pairs(&mut pairs, &delta.nodes);
    push_pairs(&mut pairs, &delta.deleted_nodes);
    assert(pairs@ =~= delta@.surrogates());
    let surrogates: Vec<NodeSurrogate> = sort_by_key(&pairs);
    proof {
        lemma_sorted_distinct(surrogates@, pairs@);
        assert(delta@.surrogates_valid() ==> ordered(surrogates@)) by {
            if delta@.surrogates_valid() {
                assert forall|i: int, j: int| 0 <= i < j < pairs@.len() implies (
                #[trigger] pairs@[i]).key() != (#[trigger] pairs@[j]).key() by {
                    assert(delta@.surrogates()[i].surrogate != delta@.surrogates()[j].surrogate);
                }
            }
        }
    }
    if !is_ordered(&surrogates) {
        return Err(storage_err("new node run contains duplicate surrogate"));
    }
    assert(delta@.surrogates_valid()) by {
        assert forall|i: int, j: int| 0 <= i < j < delta@.surrogates().len() implies (
        #[trigger] delta@.surrogates()[i]).surrogate != (
        #[trigger] delta@.surrogates()[j]).surrogate by {
            assert(pairs@[i].key() != pairs@[j].key());
        }
    }
    Ok(DeltaRecords { identities, surrogates })
}

/// Whether an incoming record deletes exactly what a retained one says.
pub open spec fn deletes(incoming: Identity, retained: Identity) -> bool {
    (incoming.kind == 2 || incoming.kind == 3) && incoming.kind - 2 == retained.kind
        && incoming.surrogate == retained.surrogate
}

/// Whether an incoming identity meets a retained one that it does not
/// delete.
pub open spec fn identity_collision(incoming: Seq<Identity>, retained: Seq<Identity>) -> bool {
    exists|i: int, j: int|
        0 <= i < incoming.len() && 0 <= j < retained.len() && (#[trigger] incoming[i]).uuid == (
        #[trigger] retained[j]).uuid && !deletes(incoming[i], retained[j])
}

/// Whether an incoming node meets a retained one of the same surrogate and
/// another UUID.
pub open spec fn surrogate_collision(
    incoming: Seq<NodeSurrogate>,
    retained: Seq<NodeSurrogate>,
) -> bool {
    exists|i: int, j: int|
        0 <= i < incoming.len() && 0 <= j < retained.len() && (#[trigger] incoming[i]).surrogate
            == (#[trigger] retained[j]).surrogate && incoming[i].uuid != retained[j].uuid
}

/// Keys of a sequence as numbers.
pub open spec fn number_keys<T: Keyed>(items: Seq<T>) -> Seq<u128> {
    Seq::new(items.len(), |i: int| items[i].key() as u128)
}

fn keys_of<T: Framed>(items: &Vec<T>) -> (keys: Vec<u128>)
    ensures
        keys@ == number_keys(items@),
{
    let mut keys: Vec<u128> = Vec::new();
    let mut i: usize = 0;
    while i < items.len()
        invariant
            i <= items@.len(),
            keys@.len() == i,
            forall|j: int| 0 <= j < i ==> #[trigger] keys@[j] == items@[j].key() as u128,
        decreases items.len() - i,
    {
        keys.push(items[i].key_value());
        i = i + 1;
    }
    assert(keys@ =~= number_keys(items@));
    keys
}

/// What is wrong with adding records on top of a run.
pub open spec fn collision_fault(
    run: RunModel,
    identities: Seq<Identity>,
    surrogates: Seq<NodeSurrogate>,
) -> Option<Seq<char>> {
    let id_keys = number_keys(identities);
    let pair_keys = number_keys(surrogates);
    let id_blocks = run.run.identities.blocks;
    let pair_blocks = run.run.node_surrogates.blocks;
    if !wanted_sound::<Identity>(run.identities, id_blocks, id_keys) {
        Some("UUID retained block authentication failed"@)
    } else if identity_collision(
        identities,
        wanted_items::<Identity>(run.identities, id_blocks, id_keys),
    ) {
        Some("UUID already exists in an authenticated retained run"@)
    } else if !wanted_sound::<NodeSurrogate>(run.node_surrogates, pair_blocks, pair_keys) {
        Some("UUID retained block authentication failed"@)
    } else if surrogate_collision(
        surrogates,
        wanted_items::<NodeSurrogate>(run.node_surrogates, pair_blocks, pair_keys),
    ) {
        Some("node surrogate already exists in an authenticated retained run"@)
    } else {
        None
    }
}

/// Bytes and blocks that checking the records against runs reads.
pub open spec fn collision_work(
    runs: Seq<RunModel>,
    identities: Seq<Identity>,
    surrogates: Seq<NodeSurrogate>,
) -> (u64, u64)
    decreases runs.len(),
{
    if runs.len() == 0 {
        (0, 0)
    } else {
        let before = collision_work(runs.drop_last(), identities, surrogates);
        let run = runs.last().run;
        let id_keys = number_keys(identities);
        let pair_keys = number_keys(surrogates);
        (
            sat_add(
                sat_add(before.0, wanted_bytes(0, run.identities.blocks, id_keys)),
                wanted_bytes(0, run.node_surrogates.blocks, pair_keys),
            ),
            sat_add(
                sat_add(before.1, wanted_blocks(0, run.identities.blocks, id_keys)),
                wanted_blocks(0, run.node_surrogates.blocks, pair_keys),
            ),
        )
    }
}

fn reject_identity_collisions(incoming: &Vec<Identity>, retained: &Vec<Identity>) -> (clear: bool)
    requires
        ordered(incoming@),
    ensures
        clear == !identity_collision(incoming@, retained@),
{
    let mut j: usize = 0;
    while j < retained.len()
        invariant
            j <= retained@.len(),
            ordered(incoming@),
            forall|i: int, m: int|
                0 <= i < incoming@.len() && 0 <= m < j && (#[trigger] incoming@[i]).uuid == (
                #[trigger] retained@[m]).uuid ==> deletes(incoming@[i], retained@[m]),
        decreases retained.len() - j,
    {
        let record: Identity = retained[j];
        match find_key(incoming, record.uuid) {
            Some(at) => {
                let item: Identity = incoming[at];
                let deleting: bool = (item.kind == 2 || item.kind == 3) && item.kind - 2
                    == record.kind && item.surrogate == record.surrogate;
                if !deleting {
                    assert(incoming@[at as int].uuid == retained@[j as int].uuid);
                    return false;
                }
                proof {
                    assert forall|i: int|
                        0 <= i < incoming@.len() && (#[trigger] incoming@[i]).uuid
                            == record.uuid implies i == at by {
                        if i < at {
                            assert(incoming@[i].key() < incoming@[at as int].key());
                        } else if i > at {
                            assert(incoming@[at as int].key() < incoming@[i].key());
                        }
                    }
                }
            },
            None => {
                assert forall|i: int| 0 <= i < incoming@.len() implies (
                #[trigger] incoming@[i]).uuid != record.uuid by {
                    assert(incoming@[i].key() != record.key());
                }
            },
        }
        j = j + 1;
    }
    true
}

fn reject_surrogate_collisions(
    incoming: &Vec<NodeSurrogate>,
    retained: &Vec<NodeSurrogate>,
) -> (clear: bool)
    requires
        ordered(incoming@),
    ensures
        clear == !surrogate_collision(incoming@, retained@),
{
    let mut j: usize = 0;
    while j < retained.len()
        invariant
            j <= retained@.len(),
            ordered(incoming@),
            forall|i: int, m: int|
                0 <= i < incoming@.len() && 0 <= m < j && (#[trigger] incoming@[i]).surrogate == (
                #[trigger] retained@[m]).surrogate ==> incoming@[i].uuid == retained@[m].uuid,
        decreases retained.len() - j,
    {
        let record: NodeSurrogate = retained[j];
        match find_key(incoming, record.surrogate as u128) {
            Some(at) => {
                if incoming[at].uuid != record.uuid {
                    assert(incoming@[at as int].surrogate == retained@[j as int].surrogate);
                    return false;
                }
                proof {
                    assert forall|i: int|
                        0 <= i < incoming@.len() && (#[trigger] incoming@[i]).surrogate
                            == record.surrogate implies i == at by {
                        if i < at {
                            assert(incoming@[i].key() < incoming@[at as int].key());
                        } else if i > at {
                            assert(incoming@[at as int].key() < incoming@[i].key());
                        }
                    }
                }
            },
            None => {
                assert forall|i: int| 0 <= i < incoming@.len() implies (
                #[trigger] incoming@[i]).surrogate != record.surrogate by {
                    assert(incoming@[i].key() != record.key());
                }
            },
        }
        j = j + 1;
    }
    true
}

/// Whether the first run that the records collide with fails with this
/// error.
pub open spec fn collides_with(
    runs: Seq<RunModel>,
    identities: Seq<Identity>,
    surrogates: Seq<NodeSurrogate>,
    error: GfError,
) -> bool {
    exists|i: int|
        0 <= i < runs.len() && #[trigger] collides_at(runs, i, identities, surrogates, error)
            && forall|j: int|
            0 <= j < i ==> collision_fault(#[trigger] runs[j], identities, surrogates) is None
}

/// Whether an error is that of the collisions with this run.
pub open spec fn collides_at(
    runs: Seq<RunModel>,
    i: int,
    identities: Seq<Identity>,
    surrogates: Seq<NodeSurrogate>,
    error: GfError,
) -> bool {
    collision_fault(runs[i], identities, surrogates) matches Some(message) && error.is_storage(
        message,
    )
}

/// Refuse records whose UUID or surrogate a run already knows, except where
/// they delete exactly what the run says. Gives the bytes and blocks read.
pub fn reject_retained_collisions(
    runs: &Vec<OpenRun>,
    identities: &Vec<Identity>,
    surrogates: &Vec<NodeSurrogate>,
) -> (work: Result<(u64, u64), GfError>)
    requires
        ordered(identities@),
        ordered(surrogates@),
    ensures
        match work {
            Ok(work) => {
                &&& forall|i: int|
                    0 <= i < runs@.len() ==> collision_fault(
                        #[trigger] run_models(runs@)[i],
                        identities@,
                        surrogates@,
                    ) is None
                &&& work == collision_work(run_models(runs@), identities@, surrogates@)
            },
            Err(error) => collides_with(run_models(runs@), identities@, surrogates@, error),
        },
{
    let ghost models = run_models(runs@);
    let id_keys: Vec<u128> = keys_of(identities);
    let pair_keys: Vec<u128> = keys_of(surrogates);
    let mut bytes: u64 = 0;
    let mut blocks: u64 = 0;
    let mut i: usize = 0;
    assert(models.take(0) =~= Seq::<RunModel>::empty());
    while i < runs.len()
        invariant
            i <= runs@.len(),
            models == run_models(runs@),
            ordered(identities@),
            ordered(surrogates@),
            id_keys@ == number_keys(identities@),
            pair_keys@ == number_keys(surrogates@),
            (bytes, blocks) == collision_work(models.take(i as int), identities@, surrogates@),
            forall|j: int|
                0 <= j < i ==> collision_fault(
                    #[trigger] models[j],
                    identities@,
                    surrogates@,
                ) is None,
        decreases runs.len() - i,
    {
        let run: &OpenRun = &runs[i];
        proof {
            assert(models[i as int] == run@);
            assert(models.take(i + 1).drop_last() =~= models.take(i as int));
            assert(models.take(i + 1).last() == run@);
        }
        let held: WantedRecords<Identity> = match wanted_records::<Identity>(
            run.identities.as_slice(),
            &run.descriptor.identities,
            &id_keys,
            "UUID retained block authentication failed",
        ) {
            Ok(held) => held,
            Err(error) => {
                assert(collides_at(models, i as int, identities@, surrogates@, error));
                return Err(error);
            },
        };
        if !reject_identity_collisions(identities, &held.records) {
            let error: GfError = storage_err(
                "UUID already exists in an authenticated retained run",
            );
            assert(collides_at(models, i as int, identities@, surrogates@, error));
            return Err(error);
        }
        let pairs: WantedRecords<NodeSurrogate> = match wanted_records::<NodeSurrogate>(
            run.node_surrogates.as_slice(),
            &run.descriptor.node_surrogates,
            &pair_keys,
            "UUID retained block authentication failed",
        ) {
            Ok(pairs) => pairs,
            Err(error) => {
                assert(collides_at(models, i as int, identities@, surrogates@, error));
                return Err(error);
            },
        };
        if !reject_surrogate_collisions(surrogates, &pairs.records) {
            let error: GfError = storage_err(
                "node surrogate already exists in an authenticated retained run",
            );
            assert(collides_at(models, i as int, identities@, surrogates@, error));
            return Err(error);
        }
        bytes = saturating_sum(saturating_sum(bytes, held.bytes), pairs.bytes);
        blocks = saturating_sum(saturating_sum(blocks, held.blocks), pairs.blocks);
        i = i + 1;
    }
    assert(models.take(i as int) =~= models);
    Ok((bytes, blocks))
}

/// Work of one index update.
#[derive(Clone, Copy, Debug, PartialEq, Eq, Structural)]
pub struct UuidIndexAppendMetrics {
    /// Identity records in the delta.
    pub input_records: u64,
    /// Payload bytes written.
    pub physical_bytes_written: u64,
    /// Bytes written.
    pub write_bytes: u64,
    /// Blocks written.
    pub write_blocks: u64,
    /// Records held in memory.
    pub peak_buffered_records: u64,
    /// Bytes held in memory.
    pub peak_buffered_bytes: u64,
    /// Random seeks while validating: always zero.
    pub validation_random_seeks: u64,
    /// Bytes authenticated while validating and merging.
    pub validation_scan_bytes: u64,
    /// Blocks authenticated while validating and merging.
    pub validation_scan_blocks: u64,
    /// Bytes authenticated when the snapshot was admitted.
    pub snapshot_admission_authentication_bytes: u64,
    /// Blocks authenticated when the snapshot was admitted.
    pub snapshot_admission_authentication_blocks: u64,
    /// Bytes of the new files.
    pub new_output_authentication_bytes: u64,
    /// Blocks of the new files.
    pub new_output_authentication_blocks: u64,
    /// Runs of the new manifest.
    pub retained_runs: u64,
    /// Topology rows decoded: always zero.
    pub prior_topology_rows_decoded: u64,
}

/// Sum of the block lengths of a file on top of `total`.
pub open spec fn block_bytes(total: u64, blocks: Seq<BlockView>) -> u64
    decreases blocks.len(),
{
    if blocks.len() == 0 {
        total
    } else {
        sat_add(block_bytes(total, blocks.drop_last()), blocks.last().len as u64)
    }
}

/// Sum of the block lengths of a file on top of `total`.
pub fn sum_block_bytes(total: u64, file: &FileRecord) -> (sum: u64)
    ensures
        sum == block_bytes(total, file@.blocks),
{
    let ghost views = file@.blocks;
    let mut sum: u64 = total;
    let mut i: usize = 0;
    assert(views.take(0) =~= Seq::<BlockView>::empty());
    while i < file.blocks.len()
        invariant
            i <= file.blocks@.len(),
            views == file@.blocks,
            sum == block_bytes(total, views.take(i as int)),
        decreases file.blocks.len() - i,
    {
        proof {
            assert(views.take(i + 1).drop_last() =~= views.take(i as int));
            assert(views[i as int] == file.blocks@[i as int]@);
        }
        sum = saturating_sum(sum, file.blocks[i].len as u64);
        i = i + 1;
    }
    assert(views.take(i as int) =~= views);
    sum
}

/// What the planner works on.
#[derive(Debug, PartialEq, Eq)]
pub struct PlanState {
    /// Runs, the merged ones last.
    pub runs: Vec<OpenRun>,
    /// Files created so far, in order.
    pub created: Vec<IndexFile>,
    /// Work so far.
    pub metrics: UuidIndexAppendMetrics,
}

/// Model of a [`PlanState`].
#[verifier::ext_equal]
pub struct PlanModel {
    pub runs: Seq<RunModel>,
    pub created: Seq<FileModel>,
    pub metrics: UuidIndexAppendMetrics,
}

impl View for PlanState {
    type V = PlanModel;

    open spec fn view(&self) -> PlanModel {
        PlanModel {
            runs: run_models(self.runs@),
            created: file_models(self.created@),
            metrics: self.metrics,
        }
    }
}

/// Whether a run is the merge of two adjacent runs: one level up, covering
/// both intervals, the newer record of each key winning, counted anew.
pub open spec fn overlaid(left: RunModel, right: RunModel, merged: RunModel, level: u8) -> bool {
    let records = merged.identity_records();
    &&& !merged.run.base
    &&& merged.run.level == level + 1
    &&& merged.run.first_generation == left.run.first_generation
    &&& merged.run.last_generation == right.run.last_generation
    &&& merged.run.node_count == kind_count(records, 0)
    &&& merged.run.edge_count == kind_count(records, 1)
    &&& merged.run.deleted_node_count == kind_count(records, 2)
    &&& merged.run.deleted_edge_count == kind_count(records, 3)
    &&& is_overlay(records, left.identity_records(), right.identity_records())
    &&& is_overlay(
        merged.surrogate_records(),
        left.surrogate_records(),
        right.surrogate_records(),
    )
    &&& newly_described::<Identity>(
        merged.run.identities,
        merged.identities,
        identity_prefix(level),
        right.run.last_generation,
    )
    &&& newly_described::<NodeSurrogate>(
        merged.run.node_surrogates,
        merged.node_surrogates,
        surrogate_prefix(level),
        right.run.last_generation,
    )
}

/// Why a level cannot be merged, if it cannot.
pub open spec fn plan_fault(runs: Seq<RunModel>, level: u8) -> Option<Seq<char>> {
    let at = members(runs, level);
    if at.len() < 2 {
        None
    } else if at.len() > 2 {
        Some("manifest has more than one retained run at a level"@)
    } else {
        let (left, right) = level_pair(runs, level);
        if !adjacent(left.run, right.run) {
            Some("equal-level runs are not adjacent"@)
        } else if !left.authentic() || !right.authentic() {
            Some("UUID compaction block authentication failed"@)
        } else {
            None
        }
    }
}

/// Metrics after one more merge.
pub open spec fn merge_metrics(
    metrics: UuidIndexAppendMetrics,
    left: RunModel,
    right: RunModel,
    merged: RunModel,
) -> UuidIndexAppendMetrics {
    let bytes = sat_add(merged.identities.len() as u64, merged.node_surrogates.len() as u64);
    UuidIndexAppendMetrics {
        physical_bytes_written: sat_add(metrics.physical_bytes_written, bytes),
        write_bytes: sat_add(metrics.write_bytes, bytes),
        write_blocks: sat_add(metrics.write_blocks, blocks_needed(bytes)),
        validation_scan_bytes: block_bytes(
            block_bytes(
                block_bytes(
                    block_bytes(metrics.validation_scan_bytes, left.run.identities.blocks),
                    right.run.identities.blocks,
                ),
                left.run.node_surrogates.blocks,
            ),
            right.run.node_surrogates.blocks,
        ),
        validation_scan_blocks: sat_add(
            sat_add(
                sat_add(
                    sat_add(
                        metrics.validation_scan_blocks,
                        left.run.identities.blocks.len() as u64,
                    ),
                    right.run.identities.blocks.len() as u64,
                ),
                left.run.node_surrogates.blocks.len() as u64,
            ),
            right.run.node_surrogates.blocks.len() as u64,
        ),
        ..metrics
    }
}

/// Number of I/O units that hold `bytes` bytes.
pub open spec fn blocks_needed(bytes: u64) -> u64 {
    if bytes % 1_048_576 == 0 {
        (bytes / 1_048_576) as u64
    } else {
        (bytes / 1_048_576 + 1) as u64
    }
}

fn count_blocks_needed(bytes: u64) -> (blocks: u64)
    ensures
        blocks == blocks_needed(bytes),
{
    if bytes % 1_048_576 == 0 {
        bytes / 1_048_576
    } else {
        bytes / 1_048_576 + 1
    }
}

/// One level of the plan: two runs become one run of the next level.
pub open spec fn plan_step(before: PlanModel, after: PlanModel, level: u8) -> bool {
    &&& plan_fault(before.runs, level) is None
    &&& if members(before.runs, level).len() < 2 {
        after == before
    } else {
        let (left, right) = level_pair(before.runs, level);
        let merged = after.runs.last();
        &&& after.runs.len() > 0
        &&& after.runs.drop_last() == without_pair(before.runs, level)
        &&& overlaid(left, right, merged, level)
        &&& after.created == before.created + run_files(merged)
        &&& after.metrics == merge_metrics(before.metrics, left, right, merged)
    }
}

/// Whether `states` are the states of a plan over the levels below
/// `states.len() - 1`, lowest level first.
pub open spec fn plan_chain(states: Seq<PlanModel>) -> bool {
    &&& 1 <= states.len() <= 64
    &&& forall|level: int| 0 <= level < states.len() - 1 ==> #[trigger] plan_step_at(states, level)
}

/// Whether a sequence of states takes the step of this level.
pub open spec fn plan_step_at(states: Seq<PlanModel>, level: int) -> bool {
    plan_step(states[level], states[level + 1], level as u8)
}

/// Whether the plan stops at this level with this error.
pub open spec fn plan_stops(state: PlanModel, level: u8, error: GfError) -> bool {
    plan_fault(state.runs, level) matches Some(message) && error.is_storage(message)
}

/// Merge two authenticated files, the newer record of each key winning.
pub fn merge_newest_files<T: Framed>(
    left: &[u8],
    left_record: &FileRecord,
    right: &[u8],
    right_record: &FileRecord,
) -> (merged: Result<Vec<T>, GfError>)
    ensures
        match merged {
            Ok(merged) => {
                &&& file_described::<T>(left@, left_record@)
                &&& file_described::<T>(right@, right_record@)
                &&& ordered(merged@)
                &&& all_valid(merged@)
                &&& is_overlay(merged@, scan::<T>(left@).0, scan::<T>(right@).0)
            },
            Err(error) => {
                &&& !file_described::<T>(left@, left_record@) || !file_described::<T>(
                    right@,
                    right_record@,
                )
                &&& error.is_storage("UUID compaction block authentication failed"@)
            },
        },
{
    let older: Vec<T> = match authenticate_file::<T>(
        left,
        left_record,
        "UUID compaction block authentication failed",
    ) {
        Ok(items) => items,
        Err(error) => {
            return Err(error);
        },
    };
    let newer: Vec<T> = match authenticate_file::<T>(
        right,
        right_record,
        "UUID compaction block authentication failed",
    ) {
        Ok(items) => items,
        Err(error) => {
            return Err(error);
        },
    };
    let merged: Vec<T> = merge_newest(&older, &newer);
    proof {
        lemma_pack_scanned::<T>(left@);
        lemma_pack_scanned::<T>(right@);
        assert forall|i: int| 0 <= i < merged@.len() implies (#[trigger] merged@[i]).valid() by {
            assert(merged@.contains(merged@[i]));
        }
    }
    Ok(merged)
}

fn level_stem(stem: &str, level: u8) -> (name: String)
    requires
        level < 255,
    ensures
        name@ == stem@ + ascii(decimal_text((level + 1) as nat)),
{
    let mut name: String = stem.to_owned();
    name.append(decimal(level as u64 + 1).as_str());
    name
}

#[verifier::rlimit(60)]
#[verifier::spinoff_prover]
fn plan_level(state: &mut PlanState, level: u8) -> (done: Result<(), GfError>)
    requires
        level < 63,
    ensures
        match done {
            Ok(()) => plan_step(old(state)@, final(state)@, level),
            Err(error) => plan_stops(old(state)@, level, error),
        },
{
    let ghost before = state@;
    let positions: Vec<usize> = level_members(&state.runs, level);
    if positions.len() < 2 {
        return Ok(());
    }
    if positions.len() != 2 {
        return Err(storage_err("manifest has more than one retained run at a level"));
    }
    let (left, right) = take_pair(&mut state.runs, level, &positions);
    let ghost rest = run_models(state.runs@);
    let next: u64 = saturating_sum(left.descriptor.last_generation, 1);
    if next != right.descriptor.first_generation {
        return Err(storage_err("equal-level runs are not adjacent"));
    }
    let identities: Vec<Identity> = match merge_newest_files::<Identity>(
        left.identities.as_slice(),
        &left.descriptor.identities,
        right.identities.as_slice(),
        &right.descriptor.identities,
    ) {
        Ok(items) => items,
        Err(error) => {
            return Err(error);
        },
    };
    let surrogates: Vec<NodeSurrogate> = match merge_newest_files::<NodeSurrogate>(
        left.node_surrogates.as_slice(),
        &left.descriptor.node_surrogates,
        right.node_surrogates.as_slice(),
        &right.descriptor.node_surrogates,
    ) {
        Ok(items) => items,
        Err(error) => {
            return Err(error);
        },
    };
    let generation: u64 = right.descriptor.last_generation;
    let identity_stem: String = level_stem("identities-v5-l", level);
    let surrogate_stem: String = level_stem("node-surrogates-v5-l", level);
    let identity_file: IndexFile = describe_run::<Identity>(
        identity_stem.as_str(),
        generation,
        &identities,
    );
    let surrogate_file: IndexFile = describe_run::<NodeSurrogate>(
        surrogate_stem.as_str(),
        generation,
        &surrogates,
    );
    proof {
        lemma_scan_packed(identities@);
        lemma_scan_packed(surrogates@);
    }
    let counts: (u64, u64, u64, u64) = count_identity_states(&identities);
    let metrics: UuidIndexAppendMetrics = merged_metrics(
        state.metrics,
        &left,
        &right,
        identity_file.bytes.len() as u64,
        surrogate_file.bytes.len() as u64,
    );
    let merged = OpenRun {
        descriptor: RunRecord {
            base: false,
            level: level + 1,
            first_generation: left.descriptor.first_generation,
            last_generation: right.descriptor.last_generation,
            identities: identity_file.record.duplicate(),
            node_surrogates: surrogate_file.record.duplicate(),
            node_count: counts.0,
            edge_count: counts.1,
            deleted_node_count: counts.2,
            deleted_edge_count: counts.3,
        },
        identities: slice_to_vec(identity_file.bytes.as_slice()),
        node_surrogates: slice_to_vec(surrogate_file.bytes.as_slice()),
    };
    let ghost merged_model = merged@;
    let ghost created_before = state.created@;
    assert(metrics == merge_metrics(before.metrics, left@, right@, merged_model));
    state.metrics = metrics;
    state.created.push(identity_file);
    state.created.push(surrogate_file);
    state.runs.push(merged);
    proof {
        assert(file_models(state.created@) =~= file_models(created_before) + run_files(
            merged_model,
        ));
        assert(run_models(state.runs@) =~= rest.push(merged_model));
        assert(run_models(state.runs@).drop_last() =~= rest);
    }
    Ok(())
}

fn merged_metrics(
    metrics: UuidIndexAppendMetrics,
    left: &OpenRun,
    right: &OpenRun,
    identity_bytes: u64,
    surrogate_bytes: u64,
) -> (after: UuidIndexAppendMetrics)
    ensures
        forall|merged: RunModel|
            merged.identities.len() == identity_bytes && merged.node_surrogates.len()
                == surrogate_bytes ==> after == #[trigger] merge_metrics(
                metrics,
                left@,
                right@,
                merged,
            ),
{
    let bytes: u64 = saturating_sum(identity_bytes, surrogate_bytes);
    let scan: u64 = sum_block_bytes(metrics.validation_scan_bytes, &left.descriptor.identities);
    let scan: u64 = sum_block_bytes(scan, &right.descriptor.identities);
    let scan: u64 = sum_block_bytes(scan, &left.descriptor.node_surrogates);
    let scan: u64 = sum_block_bytes(scan, &right.descriptor.node_surrogates);
    let blocks: u64 = saturating_sum(
        metrics.validation_scan_blocks,
        left.descriptor.identities.blocks.len() as u64,
    );
    let blocks: u64 = saturating_sum(blocks, right.descriptor.identities.blocks.len() as u64);
    let blocks: u64 = saturating_sum(blocks, left.descriptor.node_surrogates.blocks.len() as u64);
    let blocks: u64 = saturating_sum(blocks, right.descriptor.node_surrogates.blocks.len() as u64);
    let mut after: UuidIndexAppendMetrics = metrics;
    after.physical_bytes_written = saturating_sum(metrics.physical_bytes_written, bytes);
    after.write_bytes = saturating_sum(metrics.write_bytes, bytes);
    after.write_blocks = saturating_sum(metrics.write_blocks, count_blocks_needed(bytes));
    after.validation_scan_bytes = scan;
    after.validation_scan_blocks = blocks;
    after
}

/// Merge equal levels, lowest first: wherever a level holds two adjacent
/// runs, they become one run of the next level.
pub fn compact_planned_levels(state: &mut PlanState) -> (done: Result<(), GfError>)
    ensures
        match done {
            Ok(()) => exists|states: Seq<PlanModel>|
                plan_chain(states) && states.len() == 64 && states[0] == old(state)@
                    && #[trigger] states.last() == final(state)@,
            Err(error) => exists|states: Seq<PlanModel>|
                plan_chain(states) && states.len() <= 63 && states[0] == old(state)@ && plan_stops(
                    #[trigger] states.last(),
                    (states.len() - 1) as u8,
                    error,
                ),
        },
{
    let ghost mut states: Seq<PlanModel> = seq![state@];
    let mut level: u8 = 0;
    while level < 63
        invariant
            level <= 63,
            states.len() == level + 1,
            states[0] == old(state)@,
            states.last() == state@,
            plan_chain(states),
        decreases 63 - level,
    {
        match plan_level(state, level) {
            Ok(()) => {
                proof {
                    let next = states.push(state@);
                    assert forall|l: int|
                        0 <= l < next.len() - 1 implies #[trigger] plan_step_at(next, l) by {
                        if l < states.len() - 1 {
                            assert(plan_step_at(states, l));
                        }
                    }
                    states = next;
                }
            },
            Err(error) => {
                assert(states.last() == states[states.len() - 1]);
                return Err(error);
            },
        }
        level = level + 1;
    }
    assert(states.last() == state@);
    Ok(())
}

/// The next index, the files to publish for it and the files it replaces.
#[derive(Debug, PartialEq, Eq)]
pub struct PlannedDelta {
    /// The next index.
    pub index: UuidMembershipIndex,
    /// New files that the next manifest names, by name.
    pub outputs: Vec<IndexFile>,
    /// Names of prior files that the next manifest no longer names, by name.
    pub superseded: Vec<String>,
    /// Work of the plan.
    pub metrics: UuidIndexAppendMetrics,
}

/// Why no plan can be made on this index, if none can.
pub open spec fn start_fault(current: u64, snapshot: Option<IndexModel>) -> Option<Seq<char>> {
    match snapshot {
        Some(index) => if index.current_generation != current {
            Some("retained manifest generation is stale"@)
        } else {
            None
        },
        None => if current != 0 {
            Some("authenticated UUID snapshot is required"@)
        } else {
            None
        },
    }
}

/// The index a plan starts from.
pub open spec fn start_index(snapshot: Option<IndexModel>) -> IndexModel {
    match snapshot {
        Some(index) => index,
        None => IndexModel {
            format_version: FORMAT_VERSION,
            base_generation: 0,
            current_generation: 0,
            live_node_count: 0,
            live_edge_count: 0,
            runs: Seq::empty(),
        },
    }
}

/// Whether records are those of a delta, in key order.
pub open spec fn delta_sorted(
    identities: Seq<Identity>,
    surrogates: Seq<NodeSurrogate>,
    delta: DeltaModel,
) -> bool {
    &&& ordered(identities)
    &&& identities.to_multiset() == delta.identities().to_multiset()
    &&& ordered(surrogates)
    &&& surrogates.to_multiset() == delta.surrogates().to_multiset()
}

/// Whether a run is the packed form of a delta.
pub open spec fn planned_run(
    run: RunModel,
    identities: Seq<Identity>,
    surrogates: Seq<NodeSurrogate>,
    delta: DeltaModel,
    generation: u64,
) -> bool {
    &&& !run.run.base
    &&& run.run.level == 0
    &&& run.run.first_generation == generation
    &&& run.run.last_generation == generation
    &&& run.run.node_count == delta.nodes.len()
    &&& run.run.edge_count == delta.edges.len()
    &&& run.run.deleted_node_count == delta.deleted_nodes.len()
    &&& run.run.deleted_edge_count == delta.deleted_edges.len()
    &&& run.identities == pack(identities)
    &&& run.node_surrogates == pack(surrogates)
    &&& newly_described::<Identity>(
        run.run.identities,
        run.identities,
        "identities-v5"@,
        generation,
    )
    &&& newly_described::<NodeSurrogate>(
        run.run.node_surrogates,
        run.node_surrogates,
        "node-surrogates-v5"@,
        generation,
    )
}

/// Metrics before any level is merged.
pub open spec fn delta_metrics(
    delta: RunModel,
    identities: nat,
    surrogates: nat,
    scanned: (u64, u64),
    admitted: (u64, u64),
) -> UuidIndexAppendMetrics {
    let bytes = sat_add(delta.identities.len() as u64, delta.node_surrogates.len() as u64);
    UuidIndexAppendMetrics {
        input_records: identities as u64,
        physical_bytes_written: bytes,
        write_bytes: bytes,
        write_blocks: sat_add(
            delta.run.identities.blocks.len() as u64,
            delta.run.node_surrogates.blocks.len() as u64,
        ),
        peak_buffered_records: sat_add(identities as u64, surrogates as u64),
        peak_buffered_bytes: sat_add(
            sat_mul(identities as u64, 32),
            sat_mul(surrogates as u64, 24),
        ),
        validation_random_seeks: 0,
        validation_scan_bytes: scanned.0,
        validation_scan_blocks: scanned.1,
        snapshot_admission_authentication_bytes: admitted.0,
        snapshot_admission_authentication_blocks: admitted.1,
        new_output_authentication_bytes: 0,
        new_output_authentication_blocks: 0,
        retained_runs: 0,
        prior_topology_rows_decoded: 0,
    }
}

/// Whether a plan starts from the prior runs and the packed delta; an empty
/// graph gets an empty base run first.
pub open spec fn plan_start(
    start: PlanModel,
    prior: IndexModel,
    current: u64,
    identities: Seq<Identity>,
    surrogates: Seq<NodeSurrogate>,
    delta: DeltaModel,
    generation: u64,
    admitted: (u64, u64),
) -> bool {
    let run = start.runs.last();
    &&& start.runs.len() > 0
    &&& planned_run(run, identities, surrogates, delta, generation)
    &&& start.metrics == delta_metrics(
        run,
        identities.len(),
        surrogates.len(),
        collision_work(prior.runs, identities, surrogates),
        admitted,
    )
    &&& if current == 0 && prior.runs.len() == 0 {
        let base = start.runs[start.runs.len() - 2];
        &&& start.runs == prior.runs.push(base).push(run)
        &&& empty_base(base)
        &&& start.created == run_files(run) + run_files(base)
    } else {
        &&& start.runs == prior.runs.push(run)
        &&& start.created == run_files(run)
    }
}

/// A live count after additions and deletions, where it exists.
pub open spec fn live_after(count: u64, added: nat, deleted: nat) -> Option<u64> {
    if count + added > u64::MAX || count + added < deleted {
        None
    } else {
        Some((count + added - deleted) as u64)
    }
}

/// The next index a finished plan leads to: its runs by first generation.
pub open spec fn planned_index(
    index: IndexModel,
    done: PlanModel,
    prior: IndexModel,
    generation: u64,
    delta: DeltaModel,
) -> bool {
    &&& index.runs.to_multiset() == done.runs.to_multiset()
    &&& forall|i: int, j: int|
        0 <= i < j < index.runs.len() ==> (#[trigger] index.runs[i]).run.first_generation <= (
        #[trigger] index.runs[j]).run.first_generation
    &&& index.format_version == prior.format_version
    &&& index.base_generation == prior.base_generation
    &&& index.current_generation == generation
    &&& Some(index.live_node_count) == live_after(
        prior.live_node_count,
        delta.nodes.len(),
        delta.deleted_nodes.len(),
    )
    &&& Some(index.live_edge_count) == live_after(
        prior.live_edge_count,
        delta.edges.len(),
        delta.deleted_edges.len(),
    )
}

/// Bytes of new files on top of `total`.
pub open spec fn output_bytes(total: u64, files: Seq<FileModel>) -> u64
    decreases files.len(),
{
    if files.len() == 0 {
        total
    } else {
        block_bytes(output_bytes(total, files.drop_last()), files.last().file.blocks)
    }
}

/// Blocks of new files on top of `total`.
pub open spec fn output_blocks(total: u64, files: Seq<FileModel>) -> u64
    decreases files.len(),
{
    if files.len() == 0 {
        total
    } else {
        sat_add(
            output_blocks(total, files.drop_last()),
            files.last().file.blocks.len() as u64,
        )
    }
}

/// What is published for the next index, what it replaces, and the work.
pub open spec fn planned_publication(
    planned: PlannedDelta,
    done: PlanModel,
    prior: IndexModel,
) -> bool {
    let manifest = planned.index@.manifest();
    let outputs = file_models(planned.outputs@);
    &&& in_order(planned.outputs@)
    &&& outputs.to_multiset() == named_files(done.created, manifest).to_multiset()
    &&& forall|file: FileModel| #[trigger]
        outputs.contains(file) <==> done.created.contains(file) && manifest_names(
            manifest,
            file.file.name,
        )
    &&& in_order(planned.superseded@)
    &&& distinct_names(planned.superseded@)
    &&& forall|name: Seq<char>| #[trigger]
        has_name(planned.superseded@, name) <==> manifest_names(prior.manifest(), name)
            && !manifest_names(manifest, name)
    &&& planned.metrics == (UuidIndexAppendMetrics {
        new_output_authentication_bytes: output_bytes(0, outputs),
        new_output_authentication_blocks: output_blocks(0, outputs),
        retained_runs: planned.index@.runs.len() as u64,
        ..done.metrics
    })
}

/// Whether a plan is that of a delta on top of an index.
pub open spec fn plans(
    planned: PlannedDelta,
    states: Seq<PlanModel>,
    identities: Seq<Identity>,
    surrogates: Seq<NodeSurrogate>,
    current: u64,
    generation: u64,
    snapshot: Option<IndexModel>,
    admitted: (u64, u64),
    delta: DeltaModel,
) -> bool {
    let prior = start_index(snapshot);
    &&& delta_sorted(identities, surrogates, delta)
    &&& forall|i: int|
        0 <= i < prior.runs.len() ==> collision_fault(
            #[trigger] prior.runs[i],
            identities,
            surrogates,
        ) is None
    &&& plan_chain(states)
    &&& states.len() == 64
    &&& plan_start(
        states[0],
        prior,
        current,
        identities,
        surrogates,
        delta,
        generation,
        admitted,
    )
    &&& planned_index(planned.index@, states.last(), prior, generation, delta)
    &&& descriptors_valid(planned.index@.manifest())
    &&& planned_publication(planned, states.last(), prior)
}

/// Whether planning a valid delta on top of an index fails.
pub open spec fn plan_fails(
    error: GfError,
    states: Seq<PlanModel>,
    identities: Seq<Identity>,
    surrogates: Seq<NodeSurrogate>,
    current: u64,
    generation: u64,
    snapshot: Option<IndexModel>,
    admitted: (u64, u64),
    delta: DeltaModel,
) -> bool {
    let prior = start_index(snapshot);
    let nodes = live_after(prior.live_node_count, delta.nodes.len(), delta.deleted_nodes.len());
    let edges = live_after(prior.live_edge_count, delta.edges.len(), delta.deleted_edges.len());
    &&& delta_sorted(identities, surrogates, delta)
    &&& if states.len() == 0 {
        collides_with(prior.runs, identities, surrogates, error)
    } else {
        &&& plan_chain(states)
        &&& plan_start(
            states[0],
            prior,
            current,
            identities,
            surrogates,
            delta,
            generation,
            admitted,
        )
        &&& if states.len() <= 63 {
            plan_stops(states.last(), (states.len() - 1) as u8, error)
        } else if nodes is None {
            error.is_storage("node live-count delta is invalid"@)
        } else if edges is None {
            error.is_storage("edge live-count delta is invalid"@)
        } else {
            &&& error.is_storage("UUID index run descriptors are invalid"@)
            &&& exists|index: IndexModel|
                planned_index(index, states.last(), prior, generation, delta)
                    && !descriptors_valid(#[trigger] index.manifest())
        }
    }
}

fn live_count(count: u64, added: usize, deleted: usize) -> (after: Option<u64>)
    ensures
        after == live_after(count, added as nat, deleted as nat),
{
    match count.checked_add(added as u64) {
        Some(sum) => sum.checked_sub(deleted as u64),
        None => None,
    }
}

fn add_run_files(
    state: &mut PlanState,
    identities: IndexFile,
    node_surrogates: IndexFile,
)
    ensures
        final(state)@.created == old(state)@.created + seq![identities@, node_surrogates@],
        final(state)@.runs == old(state)@.runs,
        final(state)@.metrics == old(state)@.metrics,
{
    let ghost before = state@;
    state.created.push(identities);
    state.created.push(node_surrogates);
    assert(state@.created =~= before.created + seq![identities@, node_surrogates@]);
}

/// Start a plan from the prior runs and the sorted records of a delta.
#[verifier::rlimit(60)]
#[verifier::spinoff_prover]
fn start_plan(
    runs: Vec<OpenRun>,
    records: &DeltaRecords,
    delta: &IdentityDelta,
    generation: u64,
    with_base: bool,
    scanned: (u64, u64),
    admitted: (u64, u64),
) -> (state: PlanState)
    requires
        ordered(records.identities@),
        all_valid(records.identities@),
        ordered(records.surrogates@),
    ensures
        state@.runs.len() > 0,
        planned_run(
            state@.runs.last(),
            records.identities@,
            records.surrogates@,
            delta@,
            generation,
        ),
        state@.metrics == delta_metrics(
            state@.runs.last(),
            records.identities@.len(),
            records.surrogates@.len(),
            scanned,
            admitted,
        ),
        if with_base {
            let run = state@.runs.last();
            let base = state@.runs[state@.runs.len() - 2];
            &&& state@.runs == run_models(runs@).push(base).push(run)
            &&& empty_base(base)
            &&& state@.created == run_files(run) + run_files(base)
        } else {
            &&& state@.runs == run_models(runs@).push(state@.runs.last())
            &&& state@.created == run_files(state@.runs.last())
        },
{
    let ghost prior = run_models(runs@);
    let identities: IndexFile = describe_run::<Identity>(
        "identities-v5",
        generation,
        &records.identities,
    );
    proof {
        assert forall|i: int| 0 <= i < records.surrogates@.len() implies (
        #[trigger] records.surrogates@[i]).valid() by {}
    }
    let surrogates: IndexFile = describe_run::<NodeSurrogate>(
        "node-surrogates-v5",
        generation,
        &records.surrogates,
    );
    let run = OpenRun {
        descriptor: RunRecord {
            base: false,
            level: 0,
            first_generation: generation,
            last_generation: generation,
            identities: identities.record.duplicate(),
            node_surrogates: surrogates.record.duplicate(),
            node_count: delta.nodes.len() as u64,
            edge_count: delta.edges.len() as u64,
            deleted_node_count: delta.deleted_nodes.len() as u64,
            deleted_edge_count: delta.deleted_edges.len() as u64,
        },
        identities: slice_to_vec(identities.bytes.as_slice()),
        node_surrogates: slice_to_vec(surrogates.bytes.as_slice()),
    };
    let ghost model = run@;
    let bytes: u64 = saturating_sum(
        identities.bytes.len() as u64,
        surrogates.bytes.len() as u64,
    );
    let count: u64 = records.identities.len() as u64;
    let pairs: u64 = records.surrogates.len() as u64;
    let metrics = UuidIndexAppendMetrics {
        input_records: count,
        physical_bytes_written: bytes,
        write_bytes: bytes,
        write_blocks: saturating_sum(
            identities.record.blocks.len() as u64,
            surrogates.record.blocks.len() as u64,
        ),
        peak_buffered_records: saturating_sum(count, pairs),
        peak_buffered_bytes: saturating_sum(
            saturating_product(count, 32),
            saturating_product(pairs, 24),
        ),
        validation_random_seeks: 0,
        validation_scan_bytes: scanned.0,
        validation_scan_blocks: scanned.1,
        snapshot_admission_authentication_bytes: admitted.0,
        snapshot_admission_authentication_blocks: admitted.1,
        new_output_authentication_bytes: 0,
        new_output_authentication_blocks: 0,
        retained_runs: 0,
        prior_topology_rows_decoded: 0,
    };
    assert(identities.record@.blocks.len() == identities.record.blocks@.len());
    assert(surrogates.record@.blocks.len() == surrogates.record.blocks@.len());
    let mut state = PlanState { runs, created: Vec::new(), metrics };
    assert(state@.created =~= Seq::<FileModel>::empty());
    add_run_files(&mut state, identities, surrogates);
    assert(state@.created =~= run_files(model));
    if with_base {
        let base: (OpenRun, IndexFile, IndexFile) = base_run();
        let ghost base_model = base.0@;
        add_run_files(&mut state, base.1, base.2);
        assert(state@.created =~= run_files(model) + run_files(base_model));
        state.runs.push(base.0);
        assert(run_models(state.runs@) =~= prior.push(base_model));
        state.runs.push(run);
        assert(run_models(state.runs@) =~= prior.push(base_model).push(model));
        assert(state@.runs[state@.runs.len() - 2] == base_model);
    } else {
        state.runs.push(run);
        assert(run_models(state.runs@) =~= prior.push(model));
    }
    assert(state@.runs.last() == model);
    state
}

/// An empty base run and its two files.
fn base_run() -> (base: (OpenRun, IndexFile, IndexFile))
    ensures
        empty_base(base.0@),
        run_files(base.0@) == seq![base.1@, base.2@],
{
    let no_identities: Vec<Identity> = Vec::new();
    let no_surrogates: Vec<NodeSurrogate> = Vec::new();
    let identities: IndexFile = describe_run::<Identity>("identities-v5-base", 0, &no_identities);
    let surrogates: IndexFile = describe_run::<NodeSurrogate>(
        "node-surrogates-v5-base",
        0,
        &no_surrogates,
    );
    let run = OpenRun {
        descriptor: RunRecord {
            base: true,
            level: 0,
            first_generation: 0,
            last_generation: 0,
            identities: identities.record.duplicate(),
            node_surrogates: surrogates.record.duplicate(),
            node_count: 0,
            edge_count: 0,
            deleted_node_count: 0,
            deleted_edge_count: 0,
        },
        identities: slice_to_vec(identities.bytes.as_slice()),
        node_surrogates: slice_to_vec(surrogates.bytes.as_slice()),
    };
    assert(run_files(run@) =~= seq![identities@, surrogates@]);
    (run, identities, surrogates)
}

fn sum_outputs(files: &Vec<IndexFile>) -> (work: (u64, u64))
    ensures
        work.0 == output_bytes(0, file_models(files@)),
        work.1 == output_blocks(0, file_models(files@)),
{
    let ghost models = file_models(files@);
    let mut bytes: u64 = 0;
    let mut blocks: u64 = 0;
    let mut i: usize = 0;
    assert(models.take(0) =~= Seq::<FileModel>::empty());
    while i < files.len()
        invariant
            i <= files@.len(),
            models == file_models(files@),
            bytes == output_bytes(0, models.take(i as int)),
            blocks == output_blocks(0, models.take(i as int)),
        decreases files.len() - i,
    {
        proof {
            assert(models.take(i + 1).drop_last() =~= models.take(i as int));
            assert(models[i as int] == files@[i as int]@);
            assert(files@[i as int].record@.blocks.len() == files@[i as int].record.blocks@.len());
        }
        bytes = sum_block_bytes(bytes, &files[i].record);
        blocks = saturating_sum(blocks, files[i].record.blocks.len() as u64);
        i = i + 1;
    }
    assert(models.take(i as int) =~= models);
    (bytes, blocks)
}

/// Order the merged runs, count, validate and list what has to be published.
fn finish_plan(
    state: PlanState,
    prior: &Manifest,
    generation: u64,
    delta: &IdentityDelta,
    Ghost(prior_index): Ghost<IndexModel>,
) -> (planned: Result<PlannedDelta, GfError>)
    requires
        prior@ == prior_index.manifest(),
    ensures
        match planned {
            Ok(planned) => {
                &&& planned_index(planned.index@, state@, prior_index, generation, delta@)
                &&& descriptors_valid(planned.index@.manifest())
                &&& planned_publication(planned, state@, prior_index)
            },
            Err(error) => {
                let nodes = live_after(
                    prior_index.live_node_count,
                    delta@.nodes.len(),
                    delta@.deleted_nodes.len(),
                );
                let edges = live_after(
                    prior_index.live_edge_count,
                    delta@.edges.len(),
                    delta@.deleted_edges.len(),
                );
                if nodes is None {
                    error.is_storage("node live-count delta is invalid"@)
                } else if edges is None {
                    error.is_storage("edge live-count delta is invalid"@)
                } else {
                    &&& error.is_storage("UUID index run descriptors are invalid"@)
                    &&& exists|index: IndexModel|
                        planned_index(index, state@, prior_index, generation, delta@)
                            && !descriptors_valid(#[trigger] index.manifest())
                }
            },
        },
{
    let live_node_count: u64 = match live_count(
        prior.live_node_count,
        delta.nodes.len(),
        delta.deleted_nodes.len(),
    ) {
        Some(count) => count,
        None => {
            return Err(storage_err("node live-count delta is invalid"));
        },
    };
    let live_edge_count: u64 = match live_count(
        prior.live_edge_count,
        delta.edges.len(),
        delta.deleted_edges.len(),
    ) {
        Some(count) => count,
        None => {
            return Err(storage_err("edge live-count delta is invalid"));
        },
    };
    let ghost done = state@;
    let ghost unsorted = state.runs@;
    let runs: Vec<OpenRun> = sort_ranked(state.runs);
    proof {
        let image = |run: OpenRun| run@;
        lemma_multiset_images(runs@, unsorted, image);
        assert(Seq::new(runs@.len(), |i: int| image(runs@[i])) =~= run_models(runs@));
        assert(Seq::new(unsorted.len(), |i: int| image(unsorted[i])) =~= run_models(unsorted));
    }
    let retained_runs: u64 = runs.len() as u64;
    let index = UuidMembershipIndex {
        format_version: prior.format_version,
        base_generation: prior.base_generation,
        current_generation: generation,
        live_node_count,
        live_edge_count,
        runs,
    };
    proof {
        assert forall|i: int, j: int| 0 <= i < j < index@.runs.len() implies (
        #[trigger] index@.runs[i]).run.first_generation <= (
        #[trigger] index@.runs[j]).run.first_generation by {
            assert(runs@[i].not_after(runs@[j]));
        }
        assert(planned_index(index@, done, prior_index, generation, delta@));
    }
    let manifest: Manifest = index.manifest();
    match validate_run_descriptors(&manifest) {
        Ok(()) => {},
        Err(error) => {
            assert(!descriptors_valid(index@.manifest()));
            return Err(error);
        },
    }
    let outputs: Vec<IndexFile> = published_files(state.created, &manifest);
    let superseded: Vec<String> = names_not_in(manifest_file_names(prior), &manifest);
    let work: (u64, u64) = sum_outputs(&outputs);
    let mut metrics: UuidIndexAppendMetrics = state.metrics;
    metrics.new_output_authentication_bytes = work.0;
    metrics.new_output_authentication_blocks = work.1;
    metrics.retained_runs = retained_runs;
    Ok(PlannedDelta { index, outputs, superseded, metrics })
}

/// Whether a result is that of planning a delta on top of an index.
pub open spec fn planning(
    planned: Result<PlannedDelta, GfError>,
    current: u64,
    generation: u64,
    prior: Option<IndexModel>,
    admitted: (u64, u64),
    delta: DeltaModel,
) -> bool {
    let fault = start_fault(current, prior);
    match planned {
        Ok(planned) => {
            &&& fault is None
            &&& delta.identities_valid()
            &&& delta.surrogates_valid()
            &&& exists|
                states: Seq<PlanModel>,
                identities: Seq<Identity>,
                surrogates: Seq<NodeSurrogate>,
            | #[trigger]
                plans(
                    planned,
                    states,
                    identities,
                    surrogates,
                    current,
                    generation,
                    prior,
                    admitted,
                    delta,
                )
        },
        Err(error) => if fault is Some {
            error.is_storage(fault->0)
        } else if !delta.identities_valid() {
            error.is_storage("new identity run contains duplicate/invalid identity"@)
        } else if !delta.surrogates_valid() {
            error.is_storage("new node run contains duplicate surrogate"@)
        } else {
            exists|
                states: Seq<PlanModel>,
                identities: Seq<Identity>,
                surrogates: Seq<NodeSurrogate>,
            | #[trigger]
                plan_fails(
                    error,
                    states,
                    identities,
                    surrogates,
                    current,
                    generation,
                    prior,
                    admitted,
                    delta,
                )
        },
    }
}

/// Plan the index update for a topology delta: the delta becomes a run of
/// the next generation, and equal levels are merged.
///
/// `admitted` is the work of admitting the snapshot, in bytes and blocks.
#[verifier::rlimit(60)]
pub fn plan_uuid_membership_delta(
    current: u64,
    generation: u64,
    snapshot: Option<UuidMembershipIndex>,
    admitted: (u64, u64),
    delta: &IdentityDelta,
) -> (planned: Result<PlannedDelta, GfError>)
    ensures
        planning(
            planned,
            current,
            generation,
            crate::construction::model_of(snapshot),
            admitted,
            delta@,
        ),
{
    let ghost model = crate::construction::model_of(snapshot);
    let start: UuidMembershipIndex = match snapshot {
        Some(index) => {
            if index.current_generation != current {
                return Err(storage_err("retained manifest generation is stale"));
            }
            index
        },
        None => {
            if current != 0 {
                return Err(storage_err("authenticated UUID snapshot is required"));
            }
            UuidMembershipIndex::empty()
        },
    };
    let ghost prior = start@;
    assert(prior =~= start_index(model));
    let records: DeltaRecords = match delta_records(delta) {
        Ok(records) => records,
        Err(error) => {
            return Err(error);
        },
    };
    let ghost ids = records.identities@;
    let ghost pairs = records.surrogates@;
    assert(delta_sorted(ids, pairs, delta@));
    let scanned: (u64, u64) = match reject_retained_collisions(
        &start.runs,
        &records.identities,
        &records.surrogates,
    ) {
        Ok(work) => work,
        Err(error) => {
            assert(plan_fails(
                error,
                Seq::<PlanModel>::empty(),
                ids,
                pairs,
                current,
                generation,
                model,
                admitted,
                delta@,
            ));
            return Err(error);
        },
    };
    let manifest: Manifest = start.manifest();
    let with_base: bool = current == 0 && start.runs.len() == 0;
    let mut state: PlanState = start_plan(
        start.runs,
        &records,
        delta,
        generation,
        with_base,
        scanned,
        admitted,
    );
    let ghost begin = state@;
    assert(plan_start(begin, prior, current, ids, pairs, delta@, generation, admitted));
    match compact_planned_levels(&mut state) {
        Ok(()) => {},
        Err(error) => {
            proof {
                let states = choose|states: Seq<PlanModel>|
                    plan_chain(states) && states.len() <= 63 && states[0] == begin && plan_stops(
                        #[trigger] states.last(),
                        (states.len() - 1) as u8,
                        error,
                    );
                assert(plan_fails(
                    error,
                    states,
                    ids,
                    pairs,
                    current,
                    generation,
                    model,
                    admitted,
                    delta@,
                ));
            }
            return Err(error);
        },
    }
    let ghost states = choose|states: Seq<PlanModel>|
        plan_chain(states) && states.len() == 64 && states[0] == begin && #[trigger] states.last()
            == state@;
    match finish_plan(state, &manifest, generation, delta, Ghost(prior)) {
        Ok(planned) => {
            assert(plans(
                planned,
                states,
                ids,
                pairs,
                current,
                generation,
                model,
                admitted,
                delta@,
            ));
            Ok(planned)
        },
        Err(error) => {
            assert(plan_fails(
                error,
                states,
                ids,
                pairs,
                current,
                generation,
                model,
                admitted,
                delta@,
            ));
            Err(error)
        },
    }
}

/// Stage an index delta: it belongs to the next generation, and an index is
/// there to continue.
pub fn prepare_uuid_membership_delta(
    current: u64,
    generation: u64,
    manifest_present: bool,
    snapshot: Option<UuidMembershipIndex>,
    admitted: (u64, u64),
    delta: &IdentityDelta,
) -> (planned: Result<PlannedDelta, GfError>)
    ensures
        if generation != sat_add(current, 1) {
            planned is Err && planned->Err_0.is_storage(
                "prepared UUID delta generation is not the next generation"@,
            )
        } else if current != 0 && !manifest_present {
            planned is Err && planned->Err_0.is_storage(
                "UUID membership index migration is required before topology mutation"@,
            )
        } else {
            planning(
                planned,
                current,
                generation,
                crate::construction::model_of(snapshot),
                admitted,
                delta@,
            )
        },
{
    if generation != saturating_sum(current, 1) {
        return Err(storage_err("prepared UUID delta generation is not the next generation"));
    }
    if current != 0 && !manifest_present {
        return Err(
            storage_err("UUID membership index migration is required before topology mutation"),
        );
    }
    plan_uuid_membership_delta(current, generation, snapshot, admitted, delta)
}

/// Nodes with a tag before each.
pub open spec fn tagged_nodes(tag: u8, nodes: Seq<ForwardRecord>) -> Seq<u8>
    decreases nodes.len(),
{
    if nodes.len() == 0 {
        Seq::empty()
    } else {
        tagged_nodes(tag, nodes.drop_last()) + seq![tag] + be_bytes(nodes.last().uuid as nat, 16)
            + be_bytes(nodes.last().node_id as nat, 8)
    }
}

/// UUIDs with a tag before each.
pub open spec fn tagged_uuids(tag: u8, uuids: Seq<UuidRecord>) -> Seq<u8>
    decreases uuids.len(),
{
    if uuids.len() == 0 {
        Seq::empty()
    } else {
        tagged_uuids(tag, uuids.drop_last()) + seq![tag] + be_bytes(uuids.last().uuid as nat, 16)
    }
}

/// What is hashed for a topology delta whose lists are in UUID order.
pub open spec fn delta_bytes(
    nodes: Seq<ForwardRecord>,
    edges: Seq<UuidRecord>,
    deleted_nodes: Seq<ForwardRecord>,
    deleted_edges: Seq<UuidRecord>,
) -> Seq<u8> {
    encode_utf8("graphforge/uuid-index-topology-delta/v1"@) + tagged_nodes(0, nodes)
        + tagged_uuids(1, edges) + tagged_nodes(2, deleted_nodes) + tagged_uuids(3, deleted_edges)
}

/// UUIDs as records.
pub open spec fn uuid_records(uuids: Seq<u128>) -> Seq<UuidRecord> {
    Seq::new(uuids.len(), |i: int| UuidRecord { uuid: uuids[i] })
}

/// Whether records are some records in UUID order.
pub open spec fn sorted_form<T: Keyed>(out: Seq<T>, items: Seq<T>) -> bool {
    sorted(out) && out.to_multiset() == items.to_multiset()
}

/// Whether a text is the digest of a topology delta, its lists in UUID order.
pub open spec fn is_delta_digest(text: Seq<char>, delta: DeltaModel) -> bool {
    exists|
        nodes: Seq<ForwardRecord>,
        edges: Seq<UuidRecord>,
        deleted_nodes: Seq<ForwardRecord>,
        deleted_edges: Seq<UuidRecord>,
    |
        {
            &&& sorted_form(nodes, delta.nodes)
            &&& sorted_form(edges, uuid_records(delta.edges))
            &&& sorted_form(deleted_nodes, delta.deleted_nodes)
            &&& sorted_form(deleted_edges, uuid_records(delta.deleted_edges))
            &&& text == sha256_hex(
                #[trigger] delta_bytes(nodes, edges, deleted_nodes, deleted_edges),
            )
        }
}

fn sort_uuids(uuids: &Vec<u128>) -> (records: Vec<UuidRecord>)
    ensures
        sorted_form(records@, uuid_records(uuids@)),
{
    let mut records: Vec<UuidRecord> = Vec::new();
    let mut i: usize = 0;
    while i < uuids.len()
        invariant
            i <= uuids@.len(),
            records@ == uuid_records(uuids@.take(i as int)),
        decreases uuids.len() - i,
    {
        records.push(UuidRecord { uuid: uuids[i] });
        assert(records@ =~= uuid_records(uuids@.take(i + 1)));
        i = i + 1;
    }
    assert(uuids@.take(i as int) =~= uuids@);
    sort_by_key(&records)
}

fn push_tagged_nodes(out: &mut Vec<u8>, tag: u8, nodes: &Vec<ForwardRecord>)
    ensures
        final(out)@ == old(out)@ + tagged_nodes(tag, nodes@),
{
    let ghost before = out@;
    let mut i: usize = 0;
    assert(nodes@.take(0) =~= Seq::<ForwardRecord>::empty());
    assert(before + Seq::<u8>::empty() =~= before);
    while i < nodes.len()
        invariant
            i <= nodes@.len(),
            out@ == before + tagged_nodes(tag, nodes@.take(i as int)),
        decreases nodes.len() - i,
    {
        assert(nodes@.take(i + 1).drop_last() =~= nodes@.take(i as int));
        out.push(tag);
        push_be(out, nodes[i].uuid, 16);
        push_be(out, nodes[i].node_id as u128, 8);
        assert(out@ =~= before + tagged_nodes(tag, nodes@.take(i + 1)));
        i = i + 1;
    }
    assert(nodes@.take(i as int) =~= nodes@);
}

fn push_tagged_uuids(out: &mut Vec<u8>, tag: u8, uuids: &Vec<UuidRecord>)
    ensures
        final(out)@ == old(out)@ + tagged_uuids(tag, uuids@),
{
    let ghost before = out@;
    let mut i: usize = 0;
    assert(uuids@.take(0) =~= Seq::<UuidRecord>::empty());
    assert(before + Seq::<u8>::empty() =~= before);
    while i < uuids.len()
        invariant
            i <= uuids@.len(),
            out@ == before + tagged_uuids(tag, uuids@.take(i as int)),
        decreases uuids.len() - i,
    {
        assert(uuids@.take(i + 1).drop_last() =~= uuids@.take(i as int));
        out.push(tag);
        push_be(out, uuids[i].uuid, 16);
        assert(out@ =~= before + tagged_uuids(tag, uuids@.take(i + 1)));
        i = i + 1;
    }
    assert(uuids@.take(i as int) =~= uuids@);
}

/// The hexadecimal digest of a topology delta. It does not depend on the
/// order of the lists.
pub fn topology_delta_sha256(delta: &IdentityDelta) -> (text: String)
    ensures
        is_delta_digest(text@, delta@),
        text@.len() == 64,
{
    let nodes: Vec<ForwardRecord> = sort_by_key(&delta.nodes);
    let edges: Vec<UuidRecord> = sort_uuids(&delta.edges);
    let deleted_nodes: Vec<ForwardRecord> = sort_by_key(&delta.deleted_nodes);
    let deleted_edges: Vec<UuidRecord> = sort_uuids(&delta.deleted_edges);
    let mut input: Vec<u8> = Vec::new();
    let tag: &str = "graphforge/uuid-index-topology-delta/v1";
    push_all(&mut input, tag.as_bytes());
    push_tagged_nodes(&mut input, 0, &nodes);
    push_tagged_uuids(&mut input, 1, &edges);
    push_tagged_nodes(&mut input, 2, &deleted_nodes);
    push_tagged_uuids(&mut input, 3, &deleted_edges);
    assert(input@ =~= delta_bytes(nodes@, edges@, deleted_nodes@, deleted_edges@));
    hex_sha256(input.as_slice())
}

proof fn lemma_sorted_form_unique<T: Keyed>(left: Seq<T>, right: Seq<T>, a: Seq<T>, b: Seq<T>)
    requires
        sorted_form(left, a),
        sorted_form(right, b),
        a.to_multiset() == b.to_multiset(),
        forall|i: int, j: int|
            0 <= i < j < a.len() ==> (#[trigger] a[i]).key() != (#[trigger] a[j]).key(),
    ensures
        left == right,
{
    lemma_sorted_distinct(left, a);
    lemma_sorted_distinct(right, a);
    lemma_multiset_contains(left, right);
    crate::keyed::lemma_ordered_unique(left, right);
}

/// Whether no UUID repeats in a list of a delta.
pub open spec fn lists_distinct(delta: DeltaModel) -> bool {
    &&& forall|i: int, j: int|
        0 <= i < j < delta.nodes.len() ==> (#[trigger] delta.nodes[i]).key() != (
        #[trigger] delta.nodes[j]).key()
    &&& forall|i: int, j: int|
        0 <= i < j < delta.deleted_nodes.len() ==> (#[trigger] delta.deleted_nodes[i]).key() != (
        #[trigger] delta.deleted_nodes[j]).key()
    &&& forall|i: int, j: int|
        0 <= i < j < delta.edges.len() ==> (#[trigger] delta.edges[i]) != (#[trigger] delta.edges[j])
    &&& forall|i: int, j: int|
        0 <= i < j < delta.deleted_edges.len() ==> (#[trigger] delta.deleted_edges[i]) != (
        #[trigger] delta.deleted_edges[j])
}

/// The digest of a delta depends on what its lists hold, not on their order.
pub proof fn lemma_delta_digest_order(
    left: DeltaModel,
    right: DeltaModel,
    first: Seq<char>,
    second: Seq<char>,
)
    requires
        lists_distinct(left),
        left.nodes.to_multiset() == right.nodes.to_multiset(),
        left.edges.to_multiset() == right.edges.to_multiset(),
        left.deleted_nodes.to_multiset() == right.deleted_nodes.to_multiset(),
        left.deleted_edges.to_multiset() == right.deleted_edges.to_multiset(),
        is_delta_digest(first, left),
        is_delta_digest(second, right),
    ensures
        first == second,
{
    let image = |uuid: u128| UuidRecord { uuid };
    lemma_multiset_images(left.edges, right.edges, image);
    lemma_multiset_images(left.deleted_edges, right.deleted_edges, image);
    assert(Seq::new(left.edges.len(), |i: int| image(left.edges[i])) =~= uuid_records(left.edges));
    assert(Seq::new(right.edges.len(), |i: int| image(right.edges[i])) =~= uuid_records(
        right.edges,
    ));
    assert(Seq::new(left.deleted_edges.len(), |i: int| image(left.deleted_edges[i]))
        =~= uuid_records(left.deleted_edges));
    assert(Seq::new(right.deleted_edges.len(), |i: int| image(right.deleted_edges[i]))
        =~= uuid_records(right.deleted_edges));
    let (a, b, c, d) = choose|
        nodes: Seq<ForwardRecord>,
        edges: Seq<UuidRecord>,
        deleted_nodes: Seq<ForwardRecord>,
        deleted_edges: Seq<UuidRecord>,
    |
        {
            &&& sorted_form(nodes, left.nodes)
            &&& sorted_form(edges, uuid_records(left.edges))
            &&& sorted_form(deleted_nodes, left.deleted_nodes)
            &&& sorted_form(deleted_edges, uuid_records(left.deleted_edges))
            &&& first == sha256_hex(
                #[trigger] delta_bytes(nodes, edges, deleted_nodes, deleted_edges),
            )
        };
    let (e, f, g, h) = choose|
        nodes: Seq<ForwardRecord>,
        edges: Seq<UuidRecord>,
        deleted_nodes: Seq<ForwardRecord>,
        deleted_edges: Seq<UuidRecord>,
    |
        {
            &&& sorted_form(nodes, right.nodes)
            &&& sorted_form(edges, uuid_records(right.edges))
            &&& sorted_form(deleted_nodes, right.deleted_nodes)
            &&& sorted_form(deleted_edges, uuid_records(right.deleted_edges))
            &&& second == sha256_hex(
                #[trigger] delta_bytes(nodes, edges, deleted_nodes, deleted_edges),
            )
        };
    let edges = uuid_records(left.edges);
    let deleted = uuid_records(left.deleted_edges);
    assert forall|i: int, j: int| 0 <= i < j < edges.len() implies (#[trigger] edges[i]).key() != (
    #[trigger] edges[j]).key() by {
        assert(left.edges[i] != left.edges[j]);
    }
    assert forall|i: int, j: int| 0 <= i < j < deleted.len() implies (#[trigger] deleted[i]).key()
        != (#[trigger] deleted[j]).key() by {
        assert(left.deleted_edges[i] != left.deleted_edges[j]);
    }
    lemma_sorted_form_unique(a, e, left.nodes, right.nodes);
    lemma_sorted_form_unique(b, f, edges, uuid_records(right.edges));
    lemma_sorted_form_unique(c, g, left.deleted_nodes, right.deleted_nodes);
    lemma_sorted_form_unique(d, h, deleted, uuid_records(right.deleted_edges));
}

} // verus!
