//! What a snapshot of a compact index remembers, and what makes it invalid.
use vstd::prelude::*;

use crate::digest::sha256_hex;
use crate::index_format::{MAX_MANIFEST_BYTES, RunView};
use crate::receipts::INDEX_DIR;
use crate::revalidation::{
    change, leased_manifest_change, object_change, runs_change, source_at,
};
use crate::runs::RunModel;
use crate::snapshot::{
    FileIdentity, IndexSight, InventoryEntry, leased_manifest, leased_run, leased_runs,
    leased_sources, leasing, object_at, RunFiles, SeenObject, SnapshotModel, SourceModel,
};
use crate::snapshot_laws::{lemma_first_entry, lemma_leased_from};

verus! {

/// Whether a source is the one of its name: no later one has it.
pub open spec fn last_source(sources: Seq<SourceModel>, name: Seq<char>, i: int) -> bool {
    &&& 0 <= i < sources.len()
    &&& sources[i].name == name
    &&& forall|j: int| i < j < sources.len() ==> (#[trigger] sources[j]).name != name
}

/// Whether an object is the one of its digest and length: no later one has both.
pub open spec fn last_object(
    objects: Seq<SeenObject>,
    sha256: Seq<char>,
    length: u64,
    k: int,
) -> bool {
    &&& 0 <= k < objects.len()
    &&& objects[k].sha256@ == sha256
    &&& objects[k].length == length
    &&& forall|j: int|
        k < j < objects.len() ==> (#[trigger] objects[j]).sha256@ != sha256 || objects[j].length
            != length
}

proof fn lemma_last_source(sources: Seq<SourceModel>, name: Seq<char>)
    ensures
        forall|i: int| #[trigger]
            last_source(sources, name, i) <==> source_at(sources, name) == Some(i),
    decreases sources.len(),
{
    if sources.len() > 0 {
        let front = sources.drop_last();
        let last = sources.len() - 1;
        lemma_last_source(front, name);
        assert forall|i: int| #[trigger]
            last_source(sources, name, i) <==> source_at(sources, name) == Some(i) by {
            if sources[last].name == name {
                assert(last_source(sources, name, i) ==> i == last);
            } else {
                if last_source(sources, name, i) {
                    assert(i < last);
                    assert(front[i] == sources[i]);
                    assert forall|j: int| i < j < front.len() implies (#[trigger] front[j]).name
                        != name by {
                        assert(sources[j] == front[j]);
                    }
                    assert(last_source(front, name, i));
                }
                if source_at(sources, name) == Some(i) {
                    assert(last_source(front, name, i));
                    assert(front[i] == sources[i]);
                    assert forall|j: int| i < j < sources.len() implies (#[trigger] sources[j]).name
                        != name by {
                        if j < last {
                            assert(sources[j] == front[j]);
                        }
                    }
                }
            }
        }
    }
}

proof fn lemma_last_object(objects: Seq<SeenObject>, sha256: Seq<char>, length: u64)
    ensures
        forall|k: int| #[trigger]
            last_object(objects, sha256, length, k) <==> object_at(objects, sha256, length) == Some(
                k,
            ),
    decreases objects.len(),
{
    if objects.len() > 0 {
        let front = objects.drop_last();
        let last = objects.len() - 1;
        lemma_last_object(front, sha256, length);
        assert forall|k: int| #[trigger]
            last_object(objects, sha256, length, k) <==> object_at(objects, sha256, length) == Some(
                k,
            ) by {
            if objects[last].sha256@ == sha256 && objects[last].length == length {
                assert(last_object(objects, sha256, length, k) ==> k == last);
            } else {
                if last_object(objects, sha256, length, k) {
                    assert(k < last);
                    assert(front[k] == objects[k]);
                    assert forall|j: int| k < j < front.len() implies (
                    #[trigger] front[j]).sha256@ != sha256 || front[j].length != length by {
                        assert(objects[j] == front[j]);
                    }
                    assert(last_object(front, sha256, length, k));
                }
                if object_at(objects, sha256, length) == Some(k) {
                    assert(last_object(front, sha256, length, k));
                    assert(front[k] == objects[k]);
                    assert forall|j: int| k < j < objects.len() implies (
                    #[trigger] objects[j]).sha256@ != sha256 || objects[j].length != length by {
                        if j < last {
                            assert(objects[j] == front[j]);
                        }
                    }
                }
            }
        }
    }
}

/// Whether a name leads through a source to an object.
pub open spec fn reaches(
    sources: Seq<SourceModel>,
    objects: Seq<SeenObject>,
    name: Seq<char>,
    i: int,
    k: int,
) -> bool {
    last_source(sources, name, i) && last_object(
        objects,
        sources[i].sha256,
        sources[i].length,
        k,
    )
}

/// Whether a name still leads to the file it led to.
pub open spec fn still_leads(
    sources: Seq<SourceModel>,
    objects: Seq<SeenObject>,
    name: Seq<char>,
    identity: FileIdentity,
) -> bool {
    exists|i: int, k: int| #[trigger]
        reaches(sources, objects, name, i, k) && objects[k].file.identity == identity
}

proof fn lemma_still_leads(
    sources: Seq<SourceModel>,
    objects: Seq<SeenObject>,
    name: Seq<char>,
    identity: FileIdentity,
)
    ensures
        forall|absent: Seq<char>, changed: Seq<char>|
            (#[trigger] object_change(sources, objects, name, identity, absent, changed) is None)
                <==> still_leads(sources, objects, name, identity),
        forall|i: int, k: int| #[trigger]
            reaches(sources, objects, name, i, k) <==> source_at(sources, name) == Some(i)
                && object_at(objects, sources[i].sha256, sources[i].length) == Some(k),
{
    lemma_last_source(sources, name);
    assert forall|i: int, k: int| #[trigger]
        reaches(sources, objects, name, i, k) <==> source_at(sources, name) == Some(i)
            && object_at(objects, sources[i].sha256, sources[i].length) == Some(k) by {
        lemma_last_object(objects, sources[i].sha256, sources[i].length);
        assert(last_source(sources, name, i) <==> source_at(sources, name) == Some(i));
        assert(last_object(objects, sources[i].sha256, sources[i].length, k) <==> object_at(
            objects,
            sources[i].sha256,
            sources[i].length,
        ) == Some(k));
    }
    if let Some(i) = source_at(sources, name) {
        if let Some(k) = object_at(objects, sources[i].sha256, sources[i].length) {
            assert(reaches(sources, objects, name, i, k));
        }
    }
}

/// Whether both names of a run still lead to the files they led to.
pub open spec fn run_leads(
    sources: Seq<SourceModel>,
    objects: Seq<SeenObject>,
    run: RunView,
    files: RunFiles,
) -> bool {
    &&& still_leads(sources, objects, run.identities.name, files.identities)
    &&& still_leads(sources, objects, run.node_surrogates.name, files.node_surrogates)
}

proof fn lemma_runs_lead(
    sources: Seq<SourceModel>,
    sight: IndexSight,
    runs: Seq<RunModel>,
    files: Seq<RunFiles>,
)
    ensures
        runs_change(Some(sources), sight, runs, files) is None <==> forall|i: int|
            0 <= i < runs.len() ==> run_leads(
                sources,
                sight.objects@,
                (#[trigger] runs[i]).run,
                files[i],
            ),
    decreases runs.len(),
{
    if runs.len() > 0 {
        let front = runs.drop_last();
        let last = runs.len() - 1;
        let objects = sight.objects@;
        lemma_runs_lead(sources, sight, front, files);
        lemma_still_leads(
            sources,
            objects,
            runs[last].run.identities.name,
            files[last].identities,
        );
        lemma_still_leads(
            sources,
            objects,
            runs[last].run.node_surrogates.name,
            files[last].node_surrogates,
        );
        if runs_change(Some(sources), sight, runs, files) is None {
            assert forall|i: int| 0 <= i < runs.len() implies run_leads(
                sources,
                objects,
                (#[trigger] runs[i]).run,
                files[i],
            ) by {
                if i < last {
                    assert(front[i] == runs[i]);
                }
            }
        } else if forall|i: int|
            0 <= i < runs.len() ==> run_leads(
                sources,
                objects,
                (#[trigger] runs[i]).run,
                files[i],
            ) {
            assert(run_leads(sources, objects, runs[last].run, files[last]));
            assert forall|i: int| 0 <= i < front.len() implies run_leads(
                sources,
                objects,
                (#[trigger] front[i]).run,
                files[i],
            ) by {
                assert(runs[i] == front[i]);
            }
        }
    }
}

/// Whether an object is the manifest that a snapshot remembers.
pub open spec fn is_manifest(snapshot: SnapshotModel, object: SeenObject) -> bool {
    &&& object.file.identity == snapshot.manifest_identity
    &&& object.file.bytes@.len() <= MAX_MANIFEST_BYTES
    &&& sha256_hex(object.file.bytes@) == snapshot.manifest_sha256
}

/// A snapshot of a compact index holds exactly as long as the graph root is the same,
/// its manifest's name still leads to the manifest it remembers, which says what it
/// said, and the names of every run still lead to the files they led to.
pub proof fn lemma_lease_holds(snapshot: SnapshotModel, sight: IndexSight)
    requires
        snapshot.sources is Some,
    ensures
        change(snapshot, sight) is None <==> {
            &&& sight.graph_root == snapshot.graph_root
            &&& sight.parsed is Some
            &&& sight.parsed->0@ == snapshot.index.manifest()
            &&& exists|i: int, k: int| #[trigger]
                reaches(
                    snapshot.sources->0,
                    sight.objects@,
                    snapshot.manifest_name,
                    i,
                    k,
                ) && is_manifest(snapshot, sight.objects@[k])
            &&& forall|i: int|
                0 <= i < snapshot.index.runs.len() ==> run_leads(
                    snapshot.sources->0,
                    sight.objects@,
                    (#[trigger] snapshot.index.runs[i]).run,
                    snapshot.files[i],
                )
        },
{
    let sources = snapshot.sources->0;
    let objects = sight.objects@;
    let name = snapshot.manifest_name;
    lemma_runs_lead(sources, sight, snapshot.index.runs, snapshot.files);
    lemma_still_leads(sources, objects, name, snapshot.manifest_identity);
    if leased_manifest_change(snapshot, sources, sight) is None {
        let i = source_at(sources, name)->0;
        let k = object_at(objects, sources[i].sha256, sources[i].length)->0;
        assert(reaches(sources, objects, name, i, k) && is_manifest(snapshot, objects[k]));
    }
    if exists|i: int, k: int| #[trigger]
        reaches(sources, objects, name, i, k) && is_manifest(snapshot, objects[k]) {
        let (i, k) = choose|i: int, k: int| #[trigger]
            reaches(sources, objects, name, i, k) && is_manifest(snapshot, objects[k]);
        assert(still_leads(sources, objects, name, snapshot.manifest_identity));
    }
}

/// Whether an inventory leads from a path to an object: the first entry of the path
/// records the object's digest and its length.
pub open spec fn entry_leads(
    inventory: Seq<InventoryEntry>,
    objects: Seq<SeenObject>,
    path: Seq<char>,
    i: int,
    k: int,
) -> bool {
    &&& 0 <= i < inventory.len()
    &&& inventory[i].relative_path@ == path
    &&& forall|j: int| 0 <= j < i ==> (#[trigger] inventory[j]).relative_path@ != path
    &&& last_object(objects, inventory[i].content_sha256@, inventory[i].byte_length, k)
}

/// A snapshot of a compact index remembers its manifest: the object that the
/// inventory leads to, its digest, its length and who it is. Its first source is
/// that object, and the two after it for each run bear the names of the run's files
/// and the digests of their records.
pub proof fn lemma_lease_remembers(
    graph_root_path: Seq<char>,
    inventory: Seq<InventoryEntry>,
    sight: IndexSight,
    generation: u64,
)
    requires
        leasing(graph_root_path, inventory, sight, generation) is Ok,
    ensures
        ({
            let snapshot = leasing(graph_root_path, inventory, sight, generation)->Ok_0;
            let path = INDEX_DIR@ + "/"@ + sight.manifest_name@;
            let sources = snapshot.sources->0;
            let runs = sight.parsed->0@.runs;
            &&& snapshot.graph_root_path == graph_root_path
            &&& snapshot.manifest_name == sight.manifest_name@
            &&& snapshot.manifest_held
            &&& snapshot.sources is Some
            &&& sources.len() == 1 + 2 * runs.len()
            &&& exists|i: int, k: int| #[trigger]
                entry_leads(inventory, sight.objects@, path, i, k) && is_manifest(
                    snapshot,
                    sight.objects@[k],
                ) && snapshot.manifest_bytes == sight.objects@[k].file.bytes@.len() && sources[0]
                    == (SourceModel {
                    name: sight.manifest_name@,
                    path: sight.objects@[k].path@,
                    sha256: inventory[i].content_sha256@,
                    length: inventory[i].byte_length,
                })
            &&& forall|r: int|
                #![trigger runs[r]]
                0 <= r < runs.len() ==> sources[1 + 2 * r].name == runs[r].identities.name
                    && sources[1 + 2 * r].sha256 == runs[r].identities.sha256 && sources[2 + 2
                    * r].name == runs[r].node_surrogates.name && sources[2 + 2 * r].sha256
                    == runs[r].node_surrogates.sha256
        }),
{
    let snapshot = leasing(graph_root_path, inventory, sight, generation)->Ok_0;
    let objects = sight.objects@;
    let (i, k) = leased_manifest(inventory, objects, sight.manifest_name@)->Ok_0;
    let path = INDEX_DIR@ + "/"@ + sight.manifest_name@;
    lemma_first_entry(inventory, path);
    lemma_last_object(objects, inventory[i].content_sha256@, inventory[i].byte_length);
    let runs = sight.parsed->0@.runs;
    lemma_leased_from(inventory, objects, runs);
    let leased = leased_runs(inventory, objects, runs)->Ok_0;
    let first = SourceModel {
        name: sight.manifest_name@,
        path: objects[k].path@,
        sha256: inventory[i].content_sha256@,
        length: inventory[i].byte_length,
    };
    lemma_sources_listed(first, inventory, objects, runs);
    assert(entry_leads(inventory, objects, path, i, k));
}

proof fn lemma_sources_listed(
    first: SourceModel,
    inventory: Seq<InventoryEntry>,
    objects: Seq<SeenObject>,
    runs: Seq<RunView>,
)
    requires
        leased_runs(inventory, objects, runs) is Ok,
    ensures
        ({
            let leased = leased_runs(inventory, objects, runs)->Ok_0;
            let sources = leased_sources(first, leased);
            &&& leased.len() == runs.len()
            &&& sources.len() == 1 + 2 * runs.len()
            &&& sources[0] == first
            &&& forall|r: int|
                #![trigger runs[r]]
                0 <= r < runs.len() ==> sources[1 + 2 * r].name == runs[r].identities.name
                    && sources[1 + 2 * r].sha256 == runs[r].identities.sha256 && sources[2 + 2
                    * r].name == runs[r].node_surrogates.name && sources[2 + 2 * r].sha256
                    == runs[r].node_surrogates.sha256
        }),
    decreases runs.len(),
{
    if runs.len() > 0 {
        let front = runs.drop_last();
        lemma_sources_listed(first, inventory, objects, front);
        let leased = leased_runs(inventory, objects, runs)->Ok_0;
        let before = leased_runs(inventory, objects, front)->Ok_0;
        let model = leased_run(inventory, objects, runs.last())->Ok_0;
        assert(leased == before.push(model));
        assert(leased.drop_last() =~= before);
        let sources = leased_sources(first, leased);
        let old = leased_sources(first, before);
        assert(sources == old.push(model.identities).push(model.node_surrogates));
        assert forall|r: int|
            #![trigger runs[r]]
            0 <= r < runs.len() implies sources[1 + 2 * r].name == runs[r].identities.name
            && sources[1 + 2 * r].sha256 == runs[r].identities.sha256 && sources[2 + 2 * r].name
            == runs[r].node_surrogates.name && sources[2 + 2 * r].sha256
            == runs[r].node_surrogates.sha256 by {
            if r < front.len() {
                assert(front[r] == runs[r]);
                assert(sources[1 + 2 * r] == old[1 + 2 * r]);
                assert(sources[2 + 2 * r] == old[2 + 2 * r]);
            }
        }
    }
}

} // verus!
