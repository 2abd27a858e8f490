//! What the decisions around a topology rewrite hold to, whatever is answered.
use vstd::prelude::*;

use crate::cancellation::{goes_on, later_question};
use crate::digest::sha256_hex;
use crate::error::GfError;
use crate::external_sort::UuidIndexBuildLimits;
use crate::index_format::{FORMAT_VERSION, Manifest};
use crate::migration::{container_components, migrates, Topology};
use crate::publication_guard::{AccountStep, observation, reconciliation};
use crate::rebuild::RebuiltIndex;
use crate::receipts::{
    authenticates_manifest, AuxiliaryReconcileOutcome, facet_kind, facet_version, IndexFacet,
    ReceiptView,
};
use crate::rewrite::{
    AfterCommit, AfterReconcile, agreed, CommittedUuidTopologyRewrite, CommittedWork, committing,
    finishing, neutrally, participation, ParticipantStep, reconciles, restores, RewriteContext,
    SnapshotFate,
};
use crate::snapshot::FileIdentity;

verus! {

/// A participant prepares an update exactly where the rewrite is on its root and
/// moves the generation. On its root and with the generation as it was, only a
/// delta that changes nothing passes. On another root nothing does.
pub proof fn lemma_participation(context: RewriteContext, neutral: bool)
    ensures
        participation(context, neutral) == Ok::<ParticipantStep, Seq<char>>(
            ParticipantStep::Prepare,
        ) <==> context.same_root && context.prior != context.next,
        participation(context, neutral) == Ok::<ParticipantStep, Seq<char>>(
            ParticipantStep::NoTransition,
        ) <==> context.same_root && context.prior == context.next && neutral,
        participation(context, neutral) is Err <==> !context.same_root || context.prior
            == context.next && !neutral,
{
}

/// The receipts decide about a rewrite that reported an error, and only together:
/// it took place exactly where each receipt that is there says so, it did not
/// exactly where each says not, and otherwise it cannot be told. Both errors are
/// then reported, and the snapshot is dropped exactly where it has given up its
/// manifest.
pub proof fn lemma_receipts_decide(
    next: AfterReconcile,
    error: GfError,
    membership: Result<AuxiliaryReconcileOutcome, GfError>,
    ordinal: Option<Result<AuxiliaryReconcileOutcome, GfError>>,
    generation: u64,
    suspended: bool,
)
    requires
        reconciles(next, error, agreed(membership, ordinal), generation, suspended),
    ensures
        next is Settle <==> {
            &&& membership == Ok::<AuxiliaryReconcileOutcome, GfError>(
                AuxiliaryReconcileOutcome::Committed,
            )
            &&& ordinal is Some ==> ordinal->0 == Ok::<AuxiliaryReconcileOutcome, GfError>(
                AuxiliaryReconcileOutcome::Committed,
            )
        },
        next is Restore <==> {
            &&& membership == Ok::<AuxiliaryReconcileOutcome, GfError>(
                AuxiliaryReconcileOutcome::NotCommitted,
            )
            &&& ordinal is Some ==> ordinal->0 == Ok::<AuxiliaryReconcileOutcome, GfError>(
                AuxiliaryReconcileOutcome::NotCommitted,
            )
        },
        next matches AfterReconcile::Settle { generation: settled } ==> settled == generation,
        next matches AfterReconcile::Restore { error: kept } ==> kept == error,
        next matches AfterReconcile::Fail { error: reported, snapshot } ==> {
            &&& snapshot == SnapshotFate::Drop <==> suspended
            &&& membership matches Err(failure) ==> reported.is_storage(
                error.text() + "; UUID reconciliation failed: "@ + failure.text(),
            )
            &&& membership is Ok && ordinal is Some && ordinal->0 is Err ==> reported.is_storage(
                error.text() + "; UUID reconciliation failed: "@ + (ordinal->0)->Err_0.text(),
            )
        },
{
}

/// A rewrite that the store committed is settled at the generation that it tells.
/// One that reported an error is looked into exactly where an update was staged;
/// otherwise its error is reported as it was, and the snapshot is dropped exactly
/// where it has given up its manifest.
pub proof fn lemma_commit_answered(
    commit: Result<Option<u64>, GfError>,
    prepared: bool,
    context: Option<RewriteContext>,
    suspended: bool,
)
    ensures
        match committing(commit, prepared, context, suspended) {
            AfterCommit::Settle { generation } => commit == Ok::<Option<u64>, GfError>(generation),
            AfterCommit::Reconcile { error, next } => commit == Err::<Option<u64>, GfError>(error)
                && prepared && context is Some && context->0.next == next,
            AfterCommit::Fail { error, snapshot } => {
                &&& commit == Err::<Option<u64>, GfError>(error)
                &&& !prepared || context is None
                &&& snapshot == SnapshotFate::Drop <==> suspended
            },
        },
{
}

/// A snapshot is kept only where it holds: after a rewrite that reported an error
/// where it took its manifest back, after a committed one where the updates were
/// verified and it could follow.
pub proof fn lemma_snapshot_kept(
    generation: u64,
    work: CommittedWork,
    verified: Result<(), GfError>,
    refreshed: Result<(), GfError>,
    reported: (GfError, SnapshotFate),
    error: GfError,
    restored: Result<(), GfError>,
)
    requires
        restores(reported, error, restored),
    ensures
        reported.1 == SnapshotFate::Keep <==> restored is Ok,
        restored is Ok ==> reported.0 == error,
        finishing(generation, work, verified, refreshed).1 == SnapshotFate::Keep <==> verified is Ok
            && refreshed is Ok,
        finishing(generation, work, verified, refreshed).0 is Err <==> verified is Err,
        finishing(generation, work, verified, refreshed).0 matches Err(failure) ==> verified == Err::<
            (),
            GfError,
        >(failure),
        finishing(generation, work, verified, refreshed).0 matches Ok(rewrite) ==> match rewrite {
            CommittedUuidTopologyRewrite::NoTopologyChange => false,
            CommittedUuidTopologyRewrite::Committed { generation: told, index_work } => told
                == generation && index_work == Some(work) && refreshed is Ok,
            CommittedUuidTopologyRewrite::CommittedNeedsRefresh {
                generation: told,
                work: done,
                error: failure,
            } => told == generation && done == work && refreshed == Err::<(), GfError>(failure),
        },
{
}

/// A rewrite that changes no identity tells the generation that was committed; it
/// reports an error only where the snapshot could not follow.
pub proof fn lemma_neutral_told(
    result: Result<Option<u64>, GfError>,
    rewrite: CommittedUuidTopologyRewrite,
)
    requires
        neutrally(result, rewrite),
    ensures
        result is Err <==> rewrite is CommittedNeedsRefresh,
        result == Ok::<Option<u64>, GfError>(None) <==> rewrite is NoTopologyChange,
        result matches Ok(Some(generation)) ==> (rewrite matches CommittedUuidTopologyRewrite::Committed {
            generation: told,
            ..
        } && told == generation),
{
}

/// A receipt is accepted for the generation and the manifest that it was made
/// for, and for no other generation. Where it is accepted, the manifest that is
/// installed has the digest that the receipt records, and so has the one that was
/// staged; for the ordinal identity they are the same bytes.
pub proof fn lemma_receipt_accepted(
    facet: IndexFacet,
    receipt: ReceiptView,
    generation: u64,
    found: Seq<u8>,
    expected: Seq<u8>,
)
    ensures
        authenticates_manifest(facet, receipt, generation, found, expected) ==> {
            &&& receipt.expected_generation == generation
            &&& receipt.manifest_sha256 == sha256_hex(found)
            &&& receipt.manifest_sha256 == sha256_hex(expected)
            &&& facet is Ordinal ==> found == expected
        },
        receipt.expected_generation == generation && receipt.manifest_sha256 == sha256_hex(found)
            && found == expected ==> authenticates_manifest(
            facet,
            receipt,
            generation,
            found,
            expected,
        ),
{
}

/// The receipts of the two indexes are told apart by kind and by version.
pub proof fn lemma_facets_differ()
    ensures
        facet_kind(IndexFacet::Membership) != facet_kind(IndexFacet::Ordinal),
        facet_version(IndexFacet::Membership) != facet_version(IndexFacet::Ordinal),
{
    reveal_strlit("uuid-membership/v5");
    reveal_strlit("uuid-membership/v4");
    assert(facet_kind(IndexFacet::Membership)[17] != facet_kind(IndexFacet::Ordinal)[17]);
}

/// A name is taken off the account exactly where the artifact is not under it,
/// and a file of unknown identity is never taken off while something is there. A
/// file is accounted for exactly where it may be the artifact; one that is known
/// to be another is refused.
pub proof fn lemma_account_sound(seen: Option<FileIdentity>, expected: Option<FileIdentity>)
    ensures
        observation(seen, expected) is Err <==> seen is Some && expected is Some && seen
            != expected,
        observation(seen, expected) == Ok::<AccountStep, Seq<char>>(AccountStep::Observe)
            <==> seen is Some && (expected is None || seen == expected),
        observation(seen, expected) == Ok::<AccountStep, Seq<char>>(AccountStep::Leave)
            <==> seen is None,
        reconciliation(seen, expected) == Ok::<AccountStep, Seq<char>>(AccountStep::Release)
            <==> seen is None || expected is Some && seen != expected,
        reconciliation(seen, expected) == Ok::<AccountStep, Seq<char>>(AccountStep::Leave)
            <==> seen is Some && seen == expected,
        reconciliation(seen, expected) is Err <==> seen is Some && expected is None,
{
}

/// Asking some questions and then some more is asking them all: the work goes on
/// past both exactly where it goes on past their number, and what is left to be
/// asked is the same. Work that nobody cancels goes on, and work that goes on past
/// more questions goes on past fewer.
pub proof fn lemma_questions_add(cancelled: Option<u64>, first: nat, second: nat)
    ensures
        goes_on(cancelled, 0),
        goes_on(None, first),
        goes_on(cancelled, first + second) <==> goes_on(cancelled, first) && goes_on(
            later_question(cancelled, first),
            second,
        ),
        goes_on(cancelled, first + second) ==> later_question(cancelled, first + second)
            == later_question(later_question(cancelled, first), second),
        cancelled matches Some(question) ==> goes_on(cancelled, question as nat) && !goes_on(
            cancelled,
            question as nat + 1,
        ),
{
}

/// A migration leaves an index alone only where it is not forced and a valid
/// manifest of this format already describes the generation of the topology; an
/// index that it leaves is then the only outcome.
pub proof fn lemma_migration_skips(
    result: Result<Option<RebuiltIndex>, GfError>,
    manifest: Option<Manifest>,
    topology: Topology,
    limits: UuidIndexBuildLimits,
    force: bool,
)
    requires
        migrates(result, manifest, topology, limits, force),
    ensures
        result == Ok::<Option<RebuiltIndex>, GfError>(None) <==> {
            &&& !force
            &&& manifest is Some
            &&& crate::runs::descriptors_valid(manifest->0@)
            &&& manifest->0@.format_version == FORMAT_VERSION
            &&& manifest->0@.current_generation == topology.generation
        },
{
}

/// A graph root has a container exactly where it is the graph tree of one of its
/// generations, and the container is what stands before `generations`.
pub proof fn lemma_container(path: Seq<String>)
    ensures
        container_components(path) is Some <==> path.len() >= 3 && path[path.len() - 1]@ == "graph"@
            && path[path.len() - 3]@ == "generations"@,
        container_components(path) matches Some(n) ==> path.len() == n + 3,
{
}

} // verus!
