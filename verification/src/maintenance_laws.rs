//! What collecting orphans and reclaiming planner directories take away, and what
//! they leave.
use vstd::multiset::Multiset;
use vstd::prelude::*;
use vstd::seq_lib::*;

use crate::error::GfError;
use crate::index_format::ManifestView;
use crate::maintenance::{
    authority_fault, canonical_run_name, collected, collects, IndexEntry, is_orphan,
    lemma_collected, OrdinalReferences, UuidIndexOrphanGcWork,
};
use crate::digest::sha256_hex;
use crate::plan_cleanup::{
    combines, directories_cleanup, directory_cleanup, file_bytes, FileCacheReleaseEvidence,
    is_plan_name, merged_evidence, plan_cleanup, PlanDirectory, PlanFile, V4_PLAN_CLEANUP_BYTES,
    V4_PLAN_CLEANUP_CANDIDATES,
};
use crate::ranked::in_order;

verus! {

/// Whether an index file is needed: the manifest or the ordinal inventory names
/// it.
pub open spec fn needed(name: Seq<char>, manifest: ManifestView, ordinal: Seq<Seq<char>>) -> bool {
    ||| exists|i: int| 0 <= i < manifest.runs.len() && (#[trigger] manifest.runs[i]).identities.name
        == name
    ||| exists|i: int|
        0 <= i < manifest.runs.len() && (#[trigger] manifest.runs[i]).node_surrogates.name == name
    ||| exists|i: int| 0 <= i < ordinal.len() && #[trigger] ordinal[i] == name
}

/// Whether a file can be collected: it has the name of an index file, and nothing
/// needs it.
pub open spec fn collectable(
    entry: IndexEntry,
    manifest: ManifestView,
    ordinal: Seq<Seq<char>>,
) -> bool {
    canonical_run_name(entry.name@) && !needed(entry.name@, manifest, ordinal)
}

proof fn lemma_collectable(entry: IndexEntry, manifest: ManifestView, ordinal: Seq<Seq<char>>)
    ensures
        is_orphan(entry, manifest, ordinal) <==> collectable(entry, manifest, ordinal),
{
}

/// Files among some that can be collected.
pub open spec fn collectables(
    entries: Multiset<IndexEntry>,
    manifest: ManifestView,
    ordinal: Seq<Seq<char>>,
) -> Multiset<IndexEntry> {
    entries.filter(|entry: IndexEntry| collectable(entry, manifest, ordinal))
}


/// Whether one of some files has this name, no other link, and can be collected.
pub open spec fn taken_from(
    entries: Seq<IndexEntry>,
    name: Seq<char>,
    manifest: ManifestView,
    ordinal: Seq<Seq<char>>,
) -> bool {
    exists|k: int|
        0 <= k < entries.len() && (#[trigger] entries[k]).name@ == name && entries[k].links == 1
            && collectable(entries[k], manifest, ordinal)
}

proof fn lemma_collected_all(
    entries: Seq<IndexEntry>,
    manifest: ManifestView,
    ordinal: Seq<Seq<char>>,
    maximum: usize,
)
    requires
        entries.len() < u64::MAX,
    ensures
        ({
            let (work, removals) = collected(entries, manifest, ordinal, maximum);
            &&& work.candidates == collectables(entries.to_multiset(), manifest, ordinal).len()
            &&& work.deferred_limit == if work.candidates > maximum {
                work.candidates - maximum
            } else {
                0
            }
            &&& forall|i: int|
                0 <= i < removals.len() ==> taken_from(
                    entries,
                    #[trigger] removals[i],
                    manifest,
                    ordinal,
                )
            &&& work.candidates <= maximum ==> forall|k: int|
                0 <= k < entries.len() && (#[trigger] entries[k]).links == 1 && collectable(
                    entries[k],
                    manifest,
                    ordinal,
                ) ==> removals.contains(entries[k].name@)
        }),
    decreases entries.len(),
{
    broadcast use group_to_multiset_ensures;

    let whole = collectables(entries.to_multiset(), manifest, ordinal);
    if entries.len() == 0 {
        assert(whole =~= Multiset::<IndexEntry>::empty());
        assert(whole.len() == 0);
    } else {
        let front = entries.drop_last();
        let last = entries.last();
        lemma_collected_all(front, manifest, ordinal, maximum);
        lemma_collected(front, manifest, ordinal, maximum);
        lemma_collectable(last, manifest, ordinal);
        assert(entries =~= front.push(last));
        assert(entries.to_multiset() =~= front.to_multiset().insert(last));
        let before = collectables(front.to_multiset(), manifest, ordinal);
        if collectable(last, manifest, ordinal) {
            assert(whole =~= before.insert(last));
        } else {
            assert(whole =~= before);
        }
        let (work, removals) = collected(entries, manifest, ordinal, maximum);
        let (old, kept) = collected(front, manifest, ordinal, maximum);
        assert(old.candidates == before.len());
        assert(work.candidates == whole.len());
        assert(work.deferred_limit == if work.candidates > maximum {
            work.candidates - maximum
        } else {
            0
        });
        assert forall|i: int| 0 <= i < removals.len() implies taken_from(
            entries,
            #[trigger] removals[i],
            manifest,
            ordinal,
        ) by {
            if i < kept.len() {
                assert(kept[i] == removals[i]);
                assert(taken_from(front, kept[i], manifest, ordinal));
                let k = choose|k: int|
                    0 <= k < front.len() && (#[trigger] front[k]).name@ == kept[i]
                        && front[k].links == 1 && collectable(front[k], manifest, ordinal);
                assert(entries[k].name@ == removals[i] && entries[k].links == 1);
            } else {
                assert(entries[entries.len() - 1].name@ == removals[i]);
            }
        }
        if work.candidates <= maximum {
            assert forall|k: int|
                0 <= k < entries.len() && (#[trigger] entries[k]).links == 1 && collectable(
                    entries[k],
                    manifest,
                    ordinal,
                ) implies removals.contains(entries[k].name@) by {
                if k < front.len() {
                    assert(front[k] == entries[k]);
                    assert(kept.contains(front[k].name@));
                    let i = choose|i: int| 0 <= i < kept.len() && kept[i] == front[k].name@;
                    assert(removals[i] == kept[i]);
                } else {
                    assert(removals[removals.len() - 1] == last.name@);
                }
            }
        }
    }
}

/// Collecting takes away no file that the manifest or the ordinal inventory
/// names, none with another link, and none that has not the name of an index
/// file. It counts every file that can be collected, takes at most the number
/// that is allowed, and where that is enough it takes every one that has no other
/// link.
pub proof fn lemma_collection_sound(
    work: UuidIndexOrphanGcWork,
    removals: Seq<Seq<char>>,
    entries: Seq<IndexEntry>,
    manifest: ManifestView,
    ordinal: Seq<Seq<char>>,
    maximum: usize,
)
    requires
        entries.len() < u64::MAX,
        collects(work, removals, entries, manifest, ordinal, maximum),
    ensures
        forall|i: int|
            0 <= i < removals.len() ==> !needed(#[trigger] removals[i], manifest, ordinal)
                && canonical_run_name(removals[i]) && taken_from(
                entries,
                removals[i],
                manifest,
                ordinal,
            ),
        work.candidates == collectables(entries.to_multiset(), manifest, ordinal).len(),
        work.removed == removals.len(),
        work.removed <= maximum,
        work.removed + work.deferred == work.candidates,
        work.deferred_limit + work.deferred_linked == work.deferred,
        work.deferred_limit == if work.candidates > maximum {
            work.candidates - maximum
        } else {
            0
        },
        work.candidates <= maximum ==> forall|k: int|
            0 <= k < entries.len() && (#[trigger] entries[k]).links == 1 && collectable(
                entries[k],
                manifest,
                ordinal,
            ) ==> removals.contains(entries[k].name@),
{
    let sorted = choose|sorted: Seq<IndexEntry>|
        in_order(sorted) && sorted.to_multiset() == entries.to_multiset() && #[trigger] collected(
            sorted,
            manifest,
            ordinal,
            maximum,
        ) == (work, removals);
    crate::keyed::lemma_multiset_contains(sorted, entries);
    lemma_collected_all(sorted, manifest, ordinal, maximum);
    lemma_collected(sorted, manifest, ordinal, maximum);
    assert forall|i: int| 0 <= i < removals.len() implies !needed(
        #[trigger] removals[i],
        manifest,
        ordinal,
    ) && canonical_run_name(removals[i]) && taken_from(
        entries,
        removals[i],
        manifest,
        ordinal,
    ) by {
        assert(taken_from(sorted, removals[i], manifest, ordinal));
        let k = choose|k: int|
            0 <= k < sorted.len() && (#[trigger] sorted[k]).name@ == removals[i] && sorted[k].links
                == 1 && collectable(sorted[k], manifest, ordinal);
        assert(sorted.contains(sorted[k]));
        assert(entries.contains(sorted[k]));
        let j = choose|j: int| 0 <= j < entries.len() && entries[j] == sorted[k];
        assert(entries[j].name@ == removals[i]);
    }
    if work.candidates <= maximum {
        assert forall|k: int|
            0 <= k < entries.len() && (#[trigger] entries[k]).links == 1 && collectable(
                entries[k],
                manifest,
                ordinal,
            ) implies removals.contains(entries[k].name@) by {
            assert(entries.contains(entries[k]));
            assert(sorted.contains(entries[k]));
            let j = choose|j: int| 0 <= j < sorted.len() && sorted[j] == entries[k];
            assert(sorted[j].links == 1);
        }
    }
}

/// Orphans are told only under authority: a selected generation that names the
/// digest of the manifest and its generation, over valid descriptors, with the
/// files of the ordinal identity known where there is one.
pub proof fn lemma_collection_authorised(
    manifest: ManifestView,
    body: Seq<u8>,
    authority: Option<(u64, Seq<char>)>,
    references: OrdinalReferences,
)
    ensures
        authority_fault(manifest, body, authority, references) is None <==> {
            &&& authority is Some
            &&& (authority->0).0 == manifest.current_generation
            &&& (authority->0).1 == sha256_hex(body)
            &&& crate::runs::descriptors_valid(manifest)
            &&& references is Absent || references is Ready
        },
{
}

/// Whether a planner directory can be reclaimed as a whole.
pub open spec fn reclaimable(directory: PlanDirectory) -> bool {
    &&& is_plan_name(directory.name@)
    &&& forall|i: int|
        0 <= i < directory.files@.len() ==> (#[trigger] directory.files@[i]).links == 1
    &&& file_bytes(directory.files@) <= V4_PLAN_CLEANUP_BYTES
}

proof fn lemma_directory_cleaned(files: Seq<PlanFile>)
    ensures
        directory_cleanup(files).1 is None <==> (forall|i: int|
            0 <= i < files.len() ==> (#[trigger] files[i]).links == 1) && file_bytes(files)
            <= V4_PLAN_CLEANUP_BYTES,
        forall|i: int|
            0 <= i < directory_cleanup(files).0 && i < files.len() ==> (#[trigger] files[i]).links
                == 1,
        directory_cleanup(files).0 <= files.len(),
    decreases files.len(),
{
    if files.len() > 0 {
        let front = files.drop_last();
        lemma_directory_cleaned(front);
        assert(files[files.len() - 1] == files.last());
        if forall|i: int| 0 <= i < files.len() ==> (#[trigger] files[i]).links == 1 {
            assert forall|i: int| 0 <= i < front.len() implies (#[trigger] front[i]).links == 1 by {
                assert(files[i] == front[i]);
            }
        }
        if forall|i: int| 0 <= i < front.len() ==> (#[trigger] front[i]).links == 1 {
            assert forall|i: int| 0 <= i < front.len() implies (#[trigger] files[i]).links == 1 by {
                assert(front[i].links == 1);
            }
        }
        assert forall|i: int| 0 <= i < directory_cleanup(front).0 && i < front.len() implies (
        #[trigger] files[i]).links == 1 by {
            assert(front[i].links == 1);
        }
    }
}

proof fn lemma_directories_cleaned(directories: Seq<PlanDirectory>)
    ensures
        ({
            let done = directories_cleanup(directories);
            &&& done.directories <= directories.len()
            &&& forall|d: int|
                0 <= d < done.directories ==> reclaimable(#[trigger] directories[d])
            &&& done.fault is None <==> done.directories == directories.len()
            &&& done.fault is Some ==> !reclaimable(directories[done.directories as int])
                && forall|i: int|
                0 <= i < done.files && i < directories[done.directories as int].files@.len() ==> (
                #[trigger] directories[done.directories as int].files@[i]).links == 1
            &&& done.fault is None ==> done.files == 0
        }),
    decreases directories.len(),
{
    if directories.len() > 0 {
        let front = directories.drop_last();
        let last = directories.last();
        let before = directories_cleanup(front);
        let done = directories_cleanup(directories);
        lemma_directories_cleaned(front);
        lemma_directory_cleaned(last.files@);
        assert(directories[directories.len() - 1] == last);
        assert forall|d: int| 0 <= d < done.directories implies reclaimable(
            #[trigger] directories[d],
        ) by {
            if d < front.len() {
                assert(front[d] == directories[d]);
            }
        }
        if before.fault is Some {
            assert(front[before.directories as int] == directories[before.directories as int]);
        }
    }
}

/// Reclaiming takes whole planner directories, in order, as long as each bears a
/// planner's name, holds no file with another link and is within the byte bound.
/// It says that it went wrong exactly where there are too many directories or one
/// of them is not like that, and no directory from that one on is taken.
pub proof fn lemma_reclaimed(directories: Seq<PlanDirectory>)
    ensures
        ({
            let done = plan_cleanup(directories);
            &&& done.fault is None <==> directories.len() <= V4_PLAN_CLEANUP_CANDIDATES
                && forall|d: int|
                0 <= d < directories.len() ==> reclaimable(#[trigger] directories[d])
            &&& done.fault is None ==> done.directories == directories.len() && done.files == 0
            &&& done.directories <= directories.len()
            &&& forall|d: int|
                0 <= d < done.directories ==> reclaimable(#[trigger] directories[d])
            &&& done.fault is Some && directories.len() <= V4_PLAN_CLEANUP_CANDIDATES
                ==> done.directories < directories.len() && !reclaimable(
                directories[done.directories as int],
            )
            &&& directories.len() > V4_PLAN_CLEANUP_CANDIDATES ==> done.directories == 0
                && done.files == 0
        }),
{
    lemma_directories_cleaned(directories);
    let done = directories_cleanup(directories);
    if done.fault is Some {
        assert(!reclaimable(directories[done.directories as int]));
    }
}

/// Work followed by cleanup succeeds exactly where both do, and then gives the
/// value of the work; no failure is lost.
pub proof fn lemma_cleanup_combined<T>(
    combined: Result<T, GfError>,
    primary: Result<T, GfError>,
    cleanup: Result<(), GfError>,
    also: Seq<char>,
)
    requires
        combines(combined, primary, cleanup, also),
    ensures
        combined is Ok <==> primary is Ok && cleanup is Ok,
        combined is Ok ==> combined == primary,
        primary is Err && cleanup is Ok ==> combined == primary,
        primary is Ok && cleanup is Err ==> combined == Err::<T, GfError>(cleanup->Err_0),
        primary is Err && cleanup is Err ==> combined->Err_0.is_storage(
            primary->Err_0.text() + "; "@ + also + " also failed: "@ + cleanup->Err_0.text(),
        ),
{
}

/// Evidence adds up: every count is the sum of the counts where that can be
/// counted, and the peak is the larger of the peaks.
pub proof fn lemma_evidence_adds(
    target: FileCacheReleaseEvidence,
    source: FileCacheReleaseEvidence,
)
    ensures
        ({
            let merged = merged_evidence(target, source);
            &&& target.sync_operations + source.sync_operations <= u64::MAX
                ==> merged.sync_operations == target.sync_operations + source.sync_operations
            &&& target.release_operations + source.release_operations <= u64::MAX
                ==> merged.release_operations == target.release_operations
                + source.release_operations
            &&& target.unsupported_operations + source.unsupported_operations <= u64::MAX
                ==> merged.unsupported_operations == target.unsupported_operations
                + source.unsupported_operations
            &&& target.released_bytes + source.released_bytes <= u64::MAX
                ==> merged.released_bytes == target.released_bytes + source.released_bytes
            &&& merged.peak_window_bytes >= target.peak_window_bytes
            &&& merged.peak_window_bytes >= source.peak_window_bytes
            &&& merged.peak_window_bytes == target.peak_window_bytes || merged.peak_window_bytes
                == source.peak_window_bytes
        }),
{
}

} // verus!
