//! What an authenticated construction reference stands for.
use vstd::prelude::*;

use crate::digest::sha256_hex;
use crate::index_format::FileView;
use crate::receipts::INDEX_DIR;
use crate::references::{
    authenticating, file_id_text, HeldRun, record_for, reference_outcome, ReferenceModel,
    references_outcome, retained_file, retained_place,
};
use crate::revalidation::change;
use crate::runs::RunModel;
use crate::snapshot::{FileIdentity, IndexSight, SeenFile, SnapshotModel};

verus! {

/// Whether a reference stands for a file of a run that is held open: it names the
/// file's path, digest and length, the held file is the one that the snapshot was
/// opened with, and its bytes have that digest and that length.
pub open spec fn stands_for(
    reference: ReferenceModel,
    file: FileView,
    seen: SeenFile,
    expected: FileIdentity,
) -> bool {
    &&& reference.target_path == INDEX_DIR@ + "/"@ + file.name
    &&& reference.sha256 == file.sha256
    &&& seen.identity == expected
    &&& reference.source_volume == seen.identity.volume
    &&& reference.source_file_id == file_id_text(seen.identity.file_id)
    &&& sha256_hex(seen.bytes@) == reference.sha256
    &&& seen.bytes@.len() == reference.bytes
}

/// Whether a reference stands for a file of one of the runs that are held open,
/// and was made under the snapshot's root and manifest.
pub open spec fn grounded(
    snapshot: SnapshotModel,
    held: Seq<HeldRun>,
    reference: ReferenceModel,
) -> bool {
    &&& reference.source_root == snapshot.graph_root_path
    &&& reference.source_root_volume == snapshot.graph_root.volume
    &&& reference.source_root_file_id == file_id_text(snapshot.graph_root.file_id)
    &&& reference.parent_manifest_sha256 == snapshot.manifest_sha256
    &&& exists|k: int|
        0 <= k < held.len() && k < snapshot.index.runs.len() && {
            let run = (#[trigger] snapshot.index.runs[k]).run;
            ||| stands_for(
                reference,
                run.identities,
                held[k].identities,
                snapshot.files[k].identities,
            )
            ||| stands_for(
                reference,
                run.node_surrogates,
                held[k].node_surrogates,
                snapshot.files[k].node_surrogates,
            )
        }
}

proof fn lemma_retained_place(runs: Seq<RunModel>, file: FileView)
    ensures
        retained_place(runs, file) matches Some((k, identities)) ==> 0 <= k < runs.len()
            && if identities {
            runs[k].run.identities == file
        } else {
            runs[k].run.node_surrogates == file
        },
    decreases runs.len(),
{
    if runs.len() > 0 {
        lemma_retained_place(runs.drop_last(), file);
    }
}

proof fn lemma_record_for(runs: Seq<RunModel>, target: Seq<char>)
    ensures
        record_for(runs, target) matches Some(file) ==> INDEX_DIR@ + "/"@ + file.name == target,
    decreases runs.len(),
{
    if runs.len() > 0 {
        lemma_record_for(runs.drop_last(), target);
    }
}

proof fn lemma_reference_grounded(
    snapshot: SnapshotModel,
    held: Seq<HeldRun>,
    reference: ReferenceModel,
)
    ensures
        reference_outcome(snapshot, held, reference) matches Ok(bytes) ==> grounded(
            snapshot,
            held,
            reference,
        ) && bytes == reference.bytes,
{
    if let Ok(bytes) = reference_outcome(snapshot, held, reference) {
        lemma_record_for(snapshot.index.runs, reference.target_path);
        let file = record_for(snapshot.index.runs, reference.target_path)->0;
        lemma_retained_place(snapshot.index.runs, file);
        let (k, identities) = retained_place(snapshot.index.runs, file)->0;
        let run = snapshot.index.runs[k].run;
        let seen = retained_file(snapshot, held, file)->Ok_0;
        if identities {
            assert(stands_for(
                reference,
                run.identities,
                held[k].identities,
                snapshot.files[k].identities,
            ));
        } else {
            assert(stands_for(
                reference,
                run.node_surrogates,
                held[k].node_surrogates,
                snapshot.files[k].node_surrogates,
            ));
        }
    }
}

/// Bytes that references stand for.
pub open spec fn referenced_bytes(references: Seq<ReferenceModel>) -> nat
    decreases references.len(),
{
    if references.len() == 0 {
        0
    } else {
        referenced_bytes(references.drop_last()) + references.last().bytes as nat
    }
}

proof fn lemma_references_grounded(
    snapshot: SnapshotModel,
    held: Seq<HeldRun>,
    references: Seq<ReferenceModel>,
)
    ensures
        references_outcome(snapshot, held, references) matches Ok(total) ==> {
            &&& forall|i: int|
                0 <= i < references.len() ==> grounded(snapshot, held, #[trigger] references[i])
            &&& referenced_bytes(references) <= u64::MAX ==> total == referenced_bytes(references)
            &&& referenced_bytes(references) > u64::MAX ==> total == u64::MAX
        },
    decreases references.len(),
{
    if references.len() > 0 {
        let front = references.drop_last();
        lemma_references_grounded(snapshot, held, front);
        lemma_reference_grounded(snapshot, held, references.last());
        if references_outcome(snapshot, held, references) is Ok {
            assert forall|i: int| 0 <= i < references.len() implies grounded(
                snapshot,
                held,
                #[trigger] references[i],
            ) by {
                if i < front.len() {
                    assert(front[i] == references[i]);
                }
            }
        }
    }
}

/// References authenticate only while the snapshot holds, before and after; each
/// then stands for a file of a held run whose bytes have the digest and the length
/// that it names, and the work counts the bytes of them all.
pub proof fn lemma_references_authentic(
    snapshot: SnapshotModel,
    before: IndexSight,
    held: Seq<HeldRun>,
    references: Seq<ReferenceModel>,
    after: IndexSight,
)
    requires
        authenticating(snapshot, before, held, references, after) is Ok,
    ensures
        change(snapshot, before) is None,
        change(snapshot, after) is None,
        forall|i: int|
            0 <= i < references.len() ==> grounded(snapshot, held, #[trigger] references[i]),
        referenced_bytes(references) <= u64::MAX ==> authenticating(
            snapshot,
            before,
            held,
            references,
            after,
        )->Ok_0.referenced_payload_bytes == referenced_bytes(references),
{
    lemma_references_grounded(snapshot, held, references);
}

} // verus!
