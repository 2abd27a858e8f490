//! What planning a topology delta on an index takes for granted and publishes.
use vstd::prelude::*;

use crate::construction::{file_models, FileModel, run_files};
use crate::fences::{lemma_fence_selection, wanted_items};
use crate::history::extendable;
use crate::identity_codec::Identity;
use crate::index_format::ManifestView;
use crate::keyed::{Keyed, lemma_multiset_contains};
use crate::membership::{has_name, IndexModel, manifest_names};
use crate::records::NodeSurrogate;
use crate::runs::{descriptors_valid, lemma_members, link_at, members, RunModel, without_pair};
use crate::topology_delta::{
    collision_fault, deletes, DeltaModel, edge_identities, identity_collision, node_identities,
    node_pairs, number_keys, plan_chain, plan_step, plan_step_at, PlanModel, PlannedDelta,
    planning, plans, start_index, surrogate_collision,
};

verus! {

proof fn lemma_no_collision(
    run: RunModel,
    identities: Seq<Identity>,
    surrogates: Seq<NodeSurrogate>,
)
    requires
        run.authentic(),
        collision_fault(run, identities, surrogates) is None,
    ensures
        forall|old: Identity, record: Identity| #[trigger]
            run.identity_records().contains(old) && #[trigger] identities.contains(record)
                && old.uuid == record.uuid ==> deletes(record, old),
        forall|old: NodeSurrogate, pair: NodeSurrogate| #[trigger]
            run.surrogate_records().contains(old) && #[trigger] surrogates.contains(pair)
                && old.surrogate == pair.surrogate ==> old.uuid == pair.uuid,
{
    let id_keys = number_keys(identities);
    let pair_keys = number_keys(surrogates);
    lemma_fence_selection::<Identity>(run.identities, run.run.identities, id_keys);
    lemma_fence_selection::<NodeSurrogate>(run.node_surrogates, run.run.node_surrogates, pair_keys);
    let ids = wanted_items::<Identity>(run.identities, run.run.identities.blocks, id_keys);
    let pairs = wanted_items::<NodeSurrogate>(
        run.node_surrogates,
        run.run.node_surrogates.blocks,
        pair_keys,
    );
    assert forall|old: Identity, record: Identity| #[trigger]
        run.identity_records().contains(old) && #[trigger] identities.contains(record) && old.uuid
            == record.uuid implies deletes(record, old) by {
        let i = choose|i: int| 0 <= i < identities.len() && identities[i] == record;
        assert(old.key() == id_keys[i]);
        assert(ids.contains(old));
        let j = choose|j: int| 0 <= j < ids.len() && ids[j] == old;
        assert(!identity_collision(identities, ids));
        assert(identities[i].uuid == ids[j].uuid);
    }
    assert forall|old: NodeSurrogate, pair: NodeSurrogate| #[trigger]
        run.surrogate_records().contains(old) && #[trigger] surrogates.contains(pair)
            && old.surrogate == pair.surrogate implies old.uuid == pair.uuid by {
        let i = choose|i: int| 0 <= i < surrogates.len() && surrogates[i] == pair;
        assert(old.key() == pair_keys[i]);
        assert(pairs.contains(old));
        let j = choose|j: int| 0 <= j < pairs.len() && pairs[j] == old;
        assert(!surrogate_collision(surrogates, pairs));
        assert(surrogates[i].surrogate == pairs[j].surrogate);
    }
}

/// A delta is planned only on what it fits. Its new nodes and edges are unknown
/// to every run, its new nodes have identifiers other than zero that no run gives
/// to another UUID, and what it deletes a run knows only as live, under the same
/// identifier. The counts of live nodes and edges move by what is added and
/// deleted.
pub proof fn lemma_delta_fits(
    planned: PlannedDelta,
    current: u64,
    generation: u64,
    prior: IndexModel,
    admitted: (u64, u64),
    delta: DeltaModel,
    r: int,
)
    requires
        planning(Ok(planned), current, generation, Some(prior), admitted, delta),
        extendable(Some(prior)),
        0 <= r < prior.runs.len(),
    ensures
        prior.current_generation == current,
        planned.index@.current_generation == generation,
        planned.index@.live_node_count + delta.deleted_nodes.len() == prior.live_node_count
            + delta.nodes.len(),
        planned.index@.live_edge_count + delta.deleted_edges.len() == prior.live_edge_count
            + delta.edges.len(),
        forall|i: int| 0 <= i < delta.nodes.len() ==> (#[trigger] delta.nodes[i]).node_id != 0,
        forall|old: Identity, i: int|
            #![trigger prior.runs[r].identity_records().contains(old), delta.nodes[i]]
            prior.runs[r].identity_records().contains(old) && 0 <= i < delta.nodes.len()
                ==> old.uuid != delta.nodes[i].uuid,
        forall|old: Identity, i: int|
            #![trigger prior.runs[r].identity_records().contains(old), delta.edges[i]]
            prior.runs[r].identity_records().contains(old) && 0 <= i < delta.edges.len()
                ==> old.uuid != delta.edges[i],
        forall|old: Identity, i: int|
            #![trigger prior.runs[r].identity_records().contains(old), delta.deleted_nodes[i]]
            prior.runs[r].identity_records().contains(old) && 0 <= i < delta.deleted_nodes.len()
                && old.uuid == delta.deleted_nodes[i].uuid ==> old.kind == 0 && old.surrogate
                == delta.deleted_nodes[i].node_id,
        forall|old: Identity, i: int|
            #![trigger prior.runs[r].identity_records().contains(old), delta.deleted_edges[i]]
            prior.runs[r].identity_records().contains(old) && 0 <= i < delta.deleted_edges.len()
                && old.uuid == delta.deleted_edges[i] ==> old.kind == 1,
        forall|old: NodeSurrogate, i: int|
            #![trigger prior.runs[r].surrogate_records().contains(old), delta.nodes[i]]
            prior.runs[r].surrogate_records().contains(old) && 0 <= i < delta.nodes.len()
                && old.surrogate == delta.nodes[i].node_id ==> old.uuid == delta.nodes[i].uuid,
{
    let (states, identities, surrogates) = choose|
        states: Seq<PlanModel>,
        identities: Seq<Identity>,
        surrogates: Seq<NodeSurrogate>,
    | #[trigger]
        plans(
            planned,
            states,
            identities,
            surrogates,
            current,
            generation,
            Some(prior),
            admitted,
            delta,
        );
    let run = prior.runs[r];
    assert(run.authentic());
    assert(collision_fault(run, identities, surrogates) is None);
    lemma_no_collision(run, identities, surrogates);
    lemma_multiset_contains(identities, delta.identities());
    lemma_multiset_contains(surrogates, delta.surrogates());
    let all = delta.identities();
    let pairs = delta.surrogates();
    let a = delta.nodes.len() as int;
    let b = a + delta.edges.len();
    let c = b + delta.deleted_nodes.len();
    assert forall|old: Identity, i: int|
        #![trigger run.identity_records().contains(old), delta.nodes[i]]
        run.identity_records().contains(old) && 0 <= i < delta.nodes.len() implies old.uuid
        != delta.nodes[i].uuid by {
        let record = node_identities(delta.nodes, 0)[i];
        assert(all[i] == record);
        assert(all.contains(record));
        assert(identities.contains(record));
    }
    assert forall|old: Identity, i: int|
        #![trigger run.identity_records().contains(old), delta.edges[i]]
        run.identity_records().contains(old) && 0 <= i < delta.edges.len() implies old.uuid
        != delta.edges[i] by {
        let record = edge_identities(delta.edges, 1)[i];
        assert(all[a + i] == record);
        assert(all.contains(record));
        assert(identities.contains(record));
    }
    assert forall|old: Identity, i: int|
        #![trigger run.identity_records().contains(old), delta.deleted_nodes[i]]
        run.identity_records().contains(old) && 0 <= i < delta.deleted_nodes.len() && old.uuid
            == delta.deleted_nodes[i].uuid implies old.kind == 0 && old.surrogate
        == delta.deleted_nodes[i].node_id by {
        let record = node_identities(delta.deleted_nodes, 2)[i];
        assert(all[b + i] == record);
        assert(all.contains(record));
        assert(identities.contains(record));
    }
    assert forall|old: Identity, i: int|
        #![trigger run.identity_records().contains(old), delta.deleted_edges[i]]
        run.identity_records().contains(old) && 0 <= i < delta.deleted_edges.len() && old.uuid
            == delta.deleted_edges[i] implies old.kind == 1 by {
        let record = edge_identities(delta.deleted_edges, 3)[i];
        assert(all[c + i] == record);
        assert(all.contains(record));
        assert(identities.contains(record));
    }
    assert forall|old: NodeSurrogate, i: int|
        #![trigger run.surrogate_records().contains(old), delta.nodes[i]]
        run.surrogate_records().contains(old) && 0 <= i < delta.nodes.len() && old.surrogate
            == delta.nodes[i].node_id implies old.uuid == delta.nodes[i].uuid by {
        let pair = node_pairs(delta.nodes)[i];
        assert(pairs[i] == pair);
        assert(pairs.contains(pair));
        assert(surrogates.contains(pair));
    }
}

/// Whether both files of a run are among some files.
pub open spec fn files_among(run: RunModel, files: Seq<FileModel>) -> bool {
    &&& files.contains(FileModel { file: run.run.identities, bytes: run.identities })
    &&& files.contains(FileModel { file: run.run.node_surrogates, bytes: run.node_surrogates })
}

/// Whether every run is an old one or has its files among those that were made.
spec fn accounted(state: PlanModel, prior: Seq<RunModel>) -> bool {
    forall|run: RunModel| #[trigger]
        state.runs.contains(run) ==> prior.contains(run) || files_among(run, state.created)
}

/// Files that are there stay there when more are added.
pub proof fn lemma_files_kept(run: RunModel, files: Seq<FileModel>, more: Seq<FileModel>)
    requires
        files_among(run, files),
    ensures
        files_among(run, files + more),
{
    let first = FileModel { file: run.run.identities, bytes: run.identities };
    let second = FileModel { file: run.run.node_surrogates, bytes: run.node_surrogates };
    let i = choose|i: int| 0 <= i < files.len() && files[i] == first;
    assert((files + more)[i] == first);
    let j = choose|j: int| 0 <= j < files.len() && files[j] == second;
    assert((files + more)[j] == second);
}

/// The files of a run are among files once they are added.
pub proof fn lemma_files_made(run: RunModel, files: Seq<FileModel>)
    ensures
        files_among(run, files + run_files(run)),
{
    let all = files + run_files(run);
    assert(all[files.len() as int] == FileModel { file: run.run.identities, bytes: run.identities });
    assert(all[(files.len() + 1) as int] == FileModel {
        file: run.run.node_surrogates,
        bytes: run.node_surrogates,
    });
}

proof fn lemma_step_accounted(
    before: PlanModel,
    after: PlanModel,
    level: u8,
    prior: Seq<RunModel>,
)
    requires
        plan_step(before, after, level),
        accounted(before, prior),
    ensures
        accounted(after, prior),
{
    if members(before.runs, level).len() >= 2 {
        let merged = after.runs.last();
        let at = members(before.runs, level);
        lemma_members(before.runs, level);
        lemma_files_made(merged, before.created);
        assert(after.runs =~= after.runs.drop_last().push(merged));
        crate::keyed::lemma_push_contains(after.runs.drop_last(), merged);
        assert forall|run: RunModel| #[trigger] after.runs.contains(run) implies prior.contains(run)
            || files_among(run, after.created) by {
            if run != merged {
                assert(without_pair(before.runs, level).contains(run));
                let left = before.runs.remove(at[1]);
                let i = choose|i: int|
                    0 <= i < left.remove(at[0]).len() && left.remove(at[0])[i] == run;
                let j = if i < at[0] {
                    i
                } else {
                    i + 1
                };
                assert(left[j] == run);
                let k = if j < at[1] {
                    j
                } else {
                    j + 1
                };
                assert(before.runs[k] == run);
                assert(before.runs.contains(run));
                if files_among(run, before.created) {
                    lemma_files_kept(run, before.created, run_files(merged));
                }
            }
        }
    }
}

proof fn lemma_chain_accounted(states: Seq<PlanModel>, n: int, prior: Seq<RunModel>)
    requires
        plan_chain(states),
        0 <= n < states.len(),
        accounted(states[0], prior),
    ensures
        accounted(states[n], prior),
    decreases n,
{
    if n > 0 {
        lemma_chain_accounted(states, n - 1, prior);
        assert(plan_step_at(states, n - 1));
        lemma_step_accounted(states[n - 1], states[n], (n - 1) as u8, prior);
    }
}

/// A planned index can be opened: every one of its runs was in the index before,
/// or both its files are published. What is superseded is exactly the old files
/// that no run of the planned index names.
pub proof fn lemma_publication_complete(
    planned: PlannedDelta,
    current: u64,
    generation: u64,
    prior: Option<IndexModel>,
    admitted: (u64, u64),
    delta: DeltaModel,
)
    requires
        planning(Ok(planned), current, generation, prior, admitted, delta),
    ensures
        forall|run: RunModel| #[trigger]
            planned.index@.runs.contains(run) ==> start_index(prior).runs.contains(run)
                || files_among(run, file_models(planned.outputs@)),
        forall|name: Seq<char>| #[trigger]
            has_name(planned.superseded@, name) <==> {
                &&& exists|i: int|
                    0 <= i < start_index(prior).runs.len() && {
                        let run = #[trigger] start_index(prior).runs[i];
                        run.run.identities.name == name || run.run.node_surrogates.name == name
                    }
                &&& forall|i: int|
                    0 <= i < planned.index@.runs.len() ==> {
                        let run = #[trigger] planned.index@.runs[i];
                        run.run.identities.name != name && run.run.node_surrogates.name != name
                    }
            },
{
    let old = start_index(prior);
    let (states, identities, surrogates) = choose|
        states: Seq<PlanModel>,
        identities: Seq<Identity>,
        surrogates: Seq<NodeSurrogate>,
    | #[trigger]
        plans(
            planned,
            states,
            identities,
            surrogates,
            current,
            generation,
            prior,
            admitted,
            delta,
        );
    let start = states[0];
    let index = planned.index@;
    let fresh = start.runs.last();
    lemma_files_made(fresh, Seq::empty());
    assert(Seq::<FileModel>::empty() + run_files(fresh) =~= run_files(fresh));
    assert(accounted(start, old.runs)) by {
        assert forall|run: RunModel| #[trigger] start.runs.contains(run) implies old.runs.contains(
            run,
        ) || files_among(run, start.created) by {
            let i = choose|i: int| 0 <= i < start.runs.len() && start.runs[i] == run;
            if i < old.runs.len() {
                assert(old.runs[i] == run);
            } else if run == fresh {
                if current == 0 && old.runs.len() == 0 {
                    lemma_files_kept(
                        fresh,
                        run_files(fresh),
                        run_files(start.runs[start.runs.len() - 2]),
                    );
                }
            } else {
                lemma_files_made(run, run_files(fresh));
            }
        }
    }
    lemma_chain_accounted(states, 63, old.runs);
    let done = states.last();
    assert(done == states[63]);
    lemma_multiset_contains(index.runs, done.runs);
    assert forall|run: RunModel| #[trigger] index.runs.contains(run) implies old.runs.contains(run)
        || files_among(run, file_models(planned.outputs@)) by {
        assert(done.runs.contains(run));
        if !old.runs.contains(run) {
            let k = choose|k: int| 0 <= k < index.runs.len() && index.runs[k] == run;
            let manifest = index.manifest();
            assert(manifest.runs[k] == run.run);
            assert(manifest_names(manifest, run.run.identities.name));
            assert(manifest_names(manifest, run.run.node_surrogates.name));
            let outputs = file_models(planned.outputs@);
            assert(outputs.contains(
                FileModel { file: run.run.identities, bytes: run.identities },
            ));
            assert(outputs.contains(
                FileModel { file: run.run.node_surrogates, bytes: run.node_surrogates },
            ));
        }
    }
    assert forall|name: Seq<char>| #[trigger] has_name(planned.superseded@, name) <==> {
        &&& exists|i: int|
            0 <= i < old.runs.len() && {
                let run = #[trigger] old.runs[i];
                run.run.identities.name == name || run.run.node_surrogates.name == name
            }
        &&& forall|i: int|
            0 <= i < index.runs.len() ==> {
                let run = #[trigger] index.runs[i];
                run.run.identities.name != name && run.run.node_surrogates.name != name
            }
    } by {
        lemma_named(old, name);
        lemma_named(index, name);
    }
}

proof fn lemma_named(index: IndexModel, name: Seq<char>)
    ensures
        manifest_names(index.manifest(), name) <==> exists|i: int|
            0 <= i < index.runs.len() && {
                let run = #[trigger] index.runs[i];
                run.run.identities.name == name || run.run.node_surrogates.name == name
            },
{
    let manifest = index.manifest();
    if manifest_names(manifest, name) {
        let i = choose|i: int|
            0 <= i < manifest.runs.len() && ((#[trigger] manifest.runs[i]).identities.name == name
                || manifest.runs[i].node_surrogates.name == name);
        assert(index.runs[i].run == manifest.runs[i]);
    }
    if exists|i: int|
        0 <= i < index.runs.len() && {
            let run = #[trigger] index.runs[i];
            run.run.identities.name == name || run.run.node_surrogates.name == name
        } {
        let i = choose|i: int|
            0 <= i < index.runs.len() && {
                let run = #[trigger] index.runs[i];
                run.run.identities.name == name || run.run.node_surrogates.name == name
            };
        assert(manifest.runs[i] == index.runs[i].run);
    }
}

/// Valid descriptors leave no gap: every generation up to the current one is in
/// the interval of exactly one run, and the first run reaches up to the base
/// generation.
pub proof fn lemma_generations_covered(manifest: ManifestView, generation: u64)
    requires
        descriptors_valid(manifest),
        generation <= manifest.current_generation,
    ensures
        exists|i: int|
            0 <= i < manifest.runs.len() && (#[trigger] manifest.runs[i]).first_generation
                <= generation <= manifest.runs[i].last_generation,
        forall|i: int, j: int|
            0 <= i < manifest.runs.len() && 0 <= j < manifest.runs.len() && (
            #[trigger] manifest.runs[i]).first_generation <= generation
                <= manifest.runs[i].last_generation && (
            #[trigger] manifest.runs[j]).first_generation <= generation
                <= manifest.runs[j].last_generation ==> i == j,
        manifest.runs[0].first_generation == 0,
        manifest.runs[0].last_generation == manifest.base_generation,
        forall|i: int| 0 <= i < manifest.runs.len() ==> ((#[trigger] manifest.runs[i]).base <==> i
            == 0),
{
    lemma_covered_from(manifest, generation, 0);
    assert forall|i: int, j: int|
        0 <= i < manifest.runs.len() && 0 <= j < manifest.runs.len() && (
        #[trigger] manifest.runs[i]).first_generation <= generation
            <= manifest.runs[i].last_generation && (#[trigger] manifest.runs[j]).first_generation
            <= generation <= manifest.runs[j].last_generation implies i == j by {
        if i < j {
            lemma_runs_follow(manifest, i, j);
        } else if j < i {
            lemma_runs_follow(manifest, j, i);
        }
    }
}

proof fn lemma_covered_from(manifest: ManifestView, generation: u64, i: int)
    requires
        descriptors_valid(manifest),
        generation <= manifest.current_generation,
        0 <= i < manifest.runs.len(),
        manifest.runs[i].first_generation <= generation,
    ensures
        exists|k: int|
            0 <= k < manifest.runs.len() && (#[trigger] manifest.runs[k]).first_generation
                <= generation <= manifest.runs[k].last_generation,
    decreases manifest.runs.len() - i,
{
    assert(link_at(manifest, i));
    if generation > manifest.runs[i].last_generation {
        lemma_covered_from(manifest, generation, i + 1);
    }
}

proof fn lemma_runs_follow(manifest: ManifestView, i: int, j: int)
    requires
        descriptors_valid(manifest),
        0 <= i < j < manifest.runs.len(),
    ensures
        manifest.runs[i].last_generation < manifest.runs[j].first_generation,
    decreases j - i,
{
    assert(link_at(manifest, i));
    if i + 1 < j {
        assert(link_at(manifest, i + 1));
        lemma_runs_follow(manifest, i + 1, j);
    }
}

} // verus!
