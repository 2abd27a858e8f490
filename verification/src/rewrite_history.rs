//! What a rewrite that failed leaves for the rewrite that repeats it.
use vstd::prelude::*;

use crate::error::GfError;
use crate::history::{extendable, lemma_delta_live, lemma_delta_read_back, mentions};
use crate::identity_codec::Identity;
use crate::maintenance::UuidIndexOrphanGcWork;
use crate::probing::{live_surrogate, membership, UuidIndexKind};
use crate::receipts::AuxiliaryReconcileOutcome;
use crate::records::NodeSurrogate;
use crate::revalidation::{change, restoring};
use crate::rewrite::{
    AfterCommit, AfterReconcile, CommittedUuidTopologyRewrite, CommittedWork, committing,
    finishing, OrdinalInputs, PreparedRewrite, prepares, reconciles, restores, RewriteContext,
    SnapshotFate,
};
use crate::snapshot::{IndexSight, SnapshotModel};
use crate::topology_delta::{DeltaModel, planning, PlanModel, plans};

verus! {

/// A snapshot that has let go of its manifest.
pub open spec fn suspended(snapshot: SnapshotModel) -> SnapshotModel {
    SnapshotModel { manifest_held: false, ..snapshot }
}

/// A rewrite whose commit reports an error after the snapshot has let go of
/// its manifest, and which the receipts show not to have taken place, is
/// restored: the snapshot takes the same manifest back, holds against the same
/// files, stays at its generation with all that it knows, and is kept; the
/// error is reported as it was.
pub proof fn lemma_failed_rewrite_restored(
    snapshot: SnapshotModel,
    sight: IndexSight,
    context: RewriteContext,
    error: GfError,
    next: AfterReconcile,
    restored: Result<(), GfError>,
    reported: (GfError, SnapshotFate),
)
    requires
        snapshot.sources is None,
        change(snapshot, sight) is None,
        snapshot.authenticated_bytes + sight.manifest->0.bytes@.len() <= u64::MAX,
        snapshot.authenticated_blocks < u64::MAX,
        reconciles(
            next,
            error,
            Ok::<AuxiliaryReconcileOutcome, Seq<char>>(AuxiliaryReconcileOutcome::NotCommitted),
            context.next,
            true,
        ),
        restored is Ok <==> restoring(suspended(snapshot), sight).1 is None,
        restores(reported, error, restored),
    ensures
        committing(Err(error), true, Some(context), true) == (AfterCommit::Reconcile {
            error,
            next: context.next,
        }),
        next == (AfterReconcile::Restore { error }),
        reported == (error, SnapshotFate::Keep),
        ({
            let (after, fault) = restoring(suspended(snapshot), sight);
            &&& fault is None
            &&& after.manifest_identity == snapshot.manifest_identity
            &&& after.manifest_sha256 == snapshot.manifest_sha256
            &&& after.manifest_held
            &&& after.index == snapshot.index
            &&& after.files == snapshot.files
            &&& change(after, sight) is None
        }),
{
}

/// The rewrite repeated on the restored snapshot starts from the generation of
/// the failed one, and once it is committed its index is at the next
/// generation, finds every node of the delta under its identifier and says of
/// every UUID that the delta does not mention what it said before the failure.
pub proof fn lemma_repeated_rewrite(
    snapshot: SnapshotModel,
    sight: IndexSight,
    context: RewriteContext,
    prepared: PreparedRewrite,
    admitted: (u64, u64),
    resolved: DeltaModel,
    ordinal: Option<OrdinalInputs>,
    orphan_gc: UuidIndexOrphanGcWork,
    work: CommittedWork,
)
    requires
        snapshot.sources is None,
        change(snapshot, sight) is None,
        snapshot.authenticated_bytes + sight.manifest->0.bytes@.len() <= u64::MAX,
        snapshot.authenticated_blocks < u64::MAX,
        extendable(Some(snapshot.index)),
        context.prior < u64::MAX,
        prepares(
            prepared,
            context,
            restoring(suspended(snapshot), sight).0.index,
            admitted,
            resolved,
            ordinal,
            orphan_gc,
        ),
    ensures
        context.prior == snapshot.index.current_generation,
        context.next == snapshot.index.current_generation + 1,
        prepared.membership.index@.current_generation == context.next,
        extendable(Some(prepared.membership.index@)),
        forall|i: int|
            0 <= i < resolved.nodes.len() ==> live_surrogate(
                prepared.membership.index@.runs,
                (#[trigger] resolved.nodes[i]).uuid,
            ) == Some(resolved.nodes[i].node_id),
        forall|kind: UuidIndexKind, uuid: u128|
            !mentions(resolved, kind, uuid) ==> #[trigger] membership(
                prepared.membership.index@.runs,
                kind,
                uuid,
            ) == membership(snapshot.index.runs, kind, uuid),
        committing(Ok(Some(context.next)), true, Some(context), true) == (AfterCommit::Settle {
            generation: Some(context.next),
        }),
        finishing(context.next, work, Ok(()), Ok(())) == (
            Ok::<CommittedUuidTopologyRewrite, GfError>(
                CommittedUuidTopologyRewrite::Committed {
                    generation: context.next,
                    index_work: Some(work),
                },
            ),
            SnapshotFate::Keep,
        ),
{
    let planned = prepared.membership;
    let prior = Some(snapshot.index);
    assert(restoring(suspended(snapshot), sight).0.index == snapshot.index);
    assert(planning(Ok(planned), context.prior, context.next, prior, admitted, resolved));
    let (states, identities, surrogates) = choose|
        states: Seq<PlanModel>,
        identities: Seq<Identity>,
        surrogates: Seq<NodeSurrogate>,
    | #[trigger]
        plans(
            planned,
            states,
            identities,
            surrogates,
            context.prior,
            context.next,
            prior,
            admitted,
            resolved,
        );
    assert(planned.index@.current_generation == context.next);
    lemma_delta_read_back(
        planned,
        context.prior,
        context.next,
        prior,
        admitted,
        resolved,
        UuidIndexKind::Node,
        0,
    );
    assert forall|i: int| 0 <= i < resolved.nodes.len() implies live_surrogate(
        planned.index@.runs,
        (#[trigger] resolved.nodes[i]).uuid,
    ) == Some(resolved.nodes[i].node_id) by {
        lemma_delta_live(
            planned,
            context.prior,
            context.next,
            prior,
            admitted,
            resolved,
            i,
        );
    }
    assert forall|kind: UuidIndexKind, uuid: u128|
        !mentions(resolved, kind, uuid) implies #[trigger] membership(
        planned.index@.runs,
        kind,
        uuid,
    ) == membership(snapshot.index.runs, kind, uuid) by {
        lemma_delta_read_back(
            planned,
            context.prior,
            context.next,
            prior,
            admitted,
            resolved,
            kind,
            uuid,
        );
    }
}

} // verus!
