//! Decisions of a topology rewrite and its index participant.
//!
//! A rewrite commits topology together with the index update that belongs to
//! it. The functions here decide, from what the durable rewrite reports, what
//! is done next and what becomes of the snapshot that the caller holds.
use vstd::prelude::*;
use vstd::string::*;

use crate::bytes::{ascii, decimal, decimal_text, sat_add};
use crate::error::{GfError, storage_err};
use crate::external_sort::UuidIndexBuildLimits;
use crate::maintenance::UuidIndexOrphanGcWork;
use crate::membership::{IndexModel, UuidMembershipIndex};
use crate::ordinal_delta::{
    delta_filled, delta_outcome, DeltaInput, PlannedV4OrdinalDelta, prepare_v4_ordinal_delta, publishes,
    V4OrdinalAppendMetrics,
};
use crate::ordinal_format::{V4ArtifactFile, V4OrdinalIdentityManifest, views};
use crate::ordinal_manifest::V4OrdinalBounds;
use crate::probing::{looked_up, probe_failed, probed, UuidIndexKind, UuidProbeMetrics};
use crate::receipts::{AuxiliaryReconcileOutcome, IndexFacet};
use crate::records::{ForwardRecord, NodeTombstone};
use crate::runs::RunModel;
use crate::topology_delta::{
    DeltaModel, IdentityDelta, is_delta_digest, PlannedDelta, planning,
    prepare_uuid_membership_delta, topology_delta_sha256, UuidIndexAppendMetrics,
};

verus! {

/// A topology delta as the caller states it: deletions by UUID.
#[derive(Debug, PartialEq, Eq)]
pub struct UuidTopologyDelta {
    /// New nodes.
    pub nodes: Vec<ForwardRecord>,
    /// New edges.
    pub edges: Vec<u128>,
    /// Deleted nodes.
    pub deleted_nodes: Vec<u128>,
    /// Deleted edges.
    pub deleted_edges: Vec<u128>,
}

/// Model of a [`UuidTopologyDelta`].
#[verifier::ext_equal]
pub struct TopologyDeltaModel {
    pub nodes: Seq<ForwardRecord>,
    pub edges: Seq<u128>,
    pub deleted_nodes: Seq<u128>,
    pub deleted_edges: Seq<u128>,
}

impl View for UuidTopologyDelta {
    type V = TopologyDeltaModel;

    open spec fn view(&self) -> TopologyDeltaModel {
        TopologyDeltaModel {
            nodes: self.nodes@,
            edges: self.edges@,
            deleted_nodes: self.deleted_nodes@,
            deleted_edges: self.deleted_edges@,
        }
    }
}

impl TopologyDeltaModel {
    /// Whether the delta changes no identity.
    pub open spec fn is_neutral(self) -> bool {
        self.nodes.len() == 0 && self.edges.len() == 0 && self.deleted_nodes.len() == 0
            && self.deleted_edges.len() == 0
    }
}

impl UuidTopologyDelta {
    /// Whether the delta changes no identity.
    pub fn is_neutral(&self) -> (yes: bool)
        ensures
            yes == self@.is_neutral(),
    {
        self.nodes.len() == 0 && self.edges.len() == 0 && self.deleted_nodes.len() == 0
            && self.deleted_edges.len() == 0
    }
}

/// Whether there is anything to commit: a changed identity or staged work.
pub fn rewrite_needed(delta: &UuidTopologyDelta, staged_is_empty: bool) -> (needed: bool)
    ensures
        needed == !(delta@.is_neutral() && staged_is_empty),
{
    !(delta.is_neutral() && staged_is_empty)
}

/// What the durable rewrite tells its participant.
#[derive(Clone, Copy, Debug, PartialEq, Eq, Structural)]
pub struct RewriteContext {
    /// Whether the rewrite works on the root that the participant expects.
    pub same_root: bool,
    /// Topology generation before the rewrite.
    pub prior: u64,
    /// Topology generation after it.
    pub next: u64,
}

/// What a participant does.
#[derive(Clone, Copy, Debug, PartialEq, Eq, Structural)]
pub enum ParticipantStep {
    /// Topology stays as it is: nothing to stage.
    NoTransition,
    /// Stage an index update.
    Prepare,
}

/// What a participant does, or why it refuses.
pub open spec fn participation(context: RewriteContext, neutral: bool) -> Result<
    ParticipantStep,
    Seq<char>,
> {
    if !context.same_root {
        Err("rewrite participant project root changed"@)
    } else if context.next != context.prior {
        Ok(ParticipantStep::Prepare)
    } else if !neutral {
        Err("UUID identity delta did not stage a topology transition"@)
    } else {
        Ok(ParticipantStep::NoTransition)
    }
}

/// Decide what a participant does.
pub fn participant_step(context: RewriteContext, delta: &UuidTopologyDelta) -> (step: Result<
    ParticipantStep,
    GfError,
>)
    ensures
        ({
            let outcome = participation(context, delta@.is_neutral());
            match step {
                Ok(step) => outcome == Ok::<ParticipantStep, Seq<char>>(step),
                Err(error) => outcome is Err && error.is_storage(outcome->Err_0),
            }
        }),
{
    if !context.same_root {
        return Err(storage_err("rewrite participant project root changed"));
    }
    if context.next == context.prior {
        if !delta.is_neutral() {
            return Err(storage_err("UUID identity delta did not stage a topology transition"));
        }
        return Ok(ParticipantStep::NoTransition);
    }
    Ok(ParticipantStep::Prepare)
}

/// What becomes of the snapshot that the caller holds.
#[derive(Clone, Copy, Debug, PartialEq, Eq, Structural)]
pub enum SnapshotFate {
    /// It stays.
    Keep,
    /// It is dropped, or opened anew where one is needed.
    Drop,
}

/// Decide whether the snapshot that the caller holds can be updated: there
/// must be an index, and the snapshot must be of the generation before.
pub fn admit_snapshot(index_present: bool, held: Option<u64>, prior: u64) -> (fate: Result<
    SnapshotFate,
    GfError,
>)
    ensures
        match fate {
            Ok(fate) => index_present && fate == (if held == Some(prior) {
                SnapshotFate::Keep
            } else {
                SnapshotFate::Drop
            }),
            Err(error) => !index_present && error.is_storage(
                "UUID membership index migration is required before topology mutation"@,
            ),
        },
{
    if !index_present {
        return Err(
            storage_err("UUID membership index migration is required before topology mutation"),
        );
    }
    match held {
        Some(generation) => if generation == prior {
            Ok(SnapshotFate::Keep)
        } else {
            Ok(SnapshotFate::Drop)
        },
        None => Ok(SnapshotFate::Drop),
    }
}

/// The nodes that were found, with their identifiers, in order.
pub open spec fn found_nodes(uuids: Seq<u128>, found: Seq<Option<u64>>) -> Seq<ForwardRecord>
    decreases uuids.len(),
{
    if uuids.len() == 0 || found.len() != uuids.len() {
        Seq::empty()
    } else {
        let before = found_nodes(uuids.drop_last(), found.drop_last());
        match found.last() {
            Some(node_id) => before.push(ForwardRecord { uuid: uuids.last(), node_id }),
            None => before,
        }
    }
}

/// The edges that were found, in order.
pub open spec fn found_edges(uuids: Seq<u128>, found: Seq<bool>) -> Seq<u128>
    decreases uuids.len(),
{
    if uuids.len() == 0 || found.len() != uuids.len() {
        Seq::empty()
    } else {
        let before = found_edges(uuids.drop_last(), found.drop_last());
        if found.last() {
            before.push(uuids.last())
        } else {
            before
        }
    }
}

fn collect_found_nodes(uuids: &Vec<u128>, found: &Vec<Option<u64>>) -> (nodes: Vec<ForwardRecord>)
    requires
        uuids@.len() == found@.len(),
    ensures
        nodes@ == found_nodes(uuids@, found@),
{
    let mut nodes: Vec<ForwardRecord> = Vec::new();
    let mut i: usize = 0;
    while i < uuids.len()
        invariant
            i <= uuids@.len(),
            uuids@.len() == found@.len(),
            nodes@ == found_nodes(uuids@.take(i as int), found@.take(i as int)),
        decreases uuids.len() - i,
    {
        assert(uuids@.take(i + 1).drop_last() =~= uuids@.take(i as int));
        assert(found@.take(i + 1).drop_last() =~= found@.take(i as int));
        match found[i] {
            Some(node_id) => {
                nodes.push(ForwardRecord { uuid: uuids[i], node_id });
            },
            None => {},
        }
        i = i + 1;
    }
    assert(uuids@.take(i as int) =~= uuids@);
    assert(found@.take(i as int) =~= found@);
    nodes
}

fn collect_found_edges(uuids: &Vec<u128>, found: &Vec<bool>) -> (edges: Vec<u128>)
    requires
        uuids@.len() == found@.len(),
    ensures
        edges@ == found_edges(uuids@, found@),
{
    let mut edges: Vec<u128> = Vec::new();
    let mut i: usize = 0;
    while i < uuids.len()
        invariant
            i <= uuids@.len(),
            uuids@.len() == found@.len(),
            edges@ == found_edges(uuids@.take(i as int), found@.take(i as int)),
        decreases uuids.len() - i,
    {
        assert(uuids@.take(i + 1).drop_last() =~= uuids@.take(i as int));
        assert(found@.take(i + 1).drop_last() =~= found@.take(i as int));
        if found[i] {
            edges.push(uuids[i]);
        }
        i = i + 1;
    }
    assert(uuids@.take(i as int) =~= uuids@);
    assert(found@.take(i as int) =~= found@);
    edges
}

/// Whether these are the live nodes and edges among the deletions.
pub open spec fn resolves(
    nodes: Seq<ForwardRecord>,
    edges: Seq<u128>,
    runs: Seq<RunModel>,
    deleted_nodes: Seq<u128>,
    deleted_edges: Seq<u128>,
) -> bool {
    exists|
        surrogates: Seq<Option<u64>>,
        node_work: UuidProbeMetrics,
        present: Seq<bool>,
        edge_work: UuidProbeMetrics,
    |
        {
            &&& #[trigger] looked_up(surrogates, node_work, runs, deleted_nodes)
            &&& #[trigger] probed(present, edge_work, runs, UuidIndexKind::Edge, deleted_edges)
            &&& nodes == found_nodes(deleted_nodes, surrogates)
            &&& edges == found_edges(deleted_edges, present)
        }
}

/// Whether looking for the deletions ends with this error.
pub open spec fn unresolvable(
    error: GfError,
    runs: Seq<RunModel>,
    deleted_nodes: Seq<u128>,
    deleted_edges: Seq<u128>,
) -> bool {
    ||| probe_failed(runs, UuidIndexKind::Node, true, deleted_nodes, error)
    ||| probe_failed(runs, UuidIndexKind::Edge, false, deleted_edges, error)
}

/// Resolve deletions against an index: those that are not live are ignored.
pub fn resolve_deletions(
    index: &UuidMembershipIndex,
    deleted_nodes: &Vec<u128>,
    deleted_edges: &Vec<u128>,
) -> (resolved: Result<(Vec<ForwardRecord>, Vec<u128>), GfError>)
    ensures
        match resolved {
            Ok((nodes, edges)) => resolves(
                nodes@,
                edges@,
                index@.runs,
                deleted_nodes@,
                deleted_edges@,
            ),
            Err(error) => unresolvable(error, index@.runs, deleted_nodes@, deleted_edges@),
        },
{
    let (surrogates, node_work): (Vec<Option<u64>>, UuidProbeMetrics) =
        match index.lookup_node_surrogates(deleted_nodes.as_slice()) {
        Ok(found) => found,
        Err(error) => {
            return Err(error);
        },
    };
    let (present, edge_work): (Vec<bool>, UuidProbeMetrics) = match index.probe(
        UuidIndexKind::Edge,
        deleted_edges.as_slice(),
    ) {
        Ok(found) => found,
        Err(error) => {
            return Err(error);
        },
    };
    let nodes: Vec<ForwardRecord> = collect_found_nodes(deleted_nodes, &surrogates);
    let edges: Vec<u128> = collect_found_edges(deleted_edges, &present);
    assert(looked_up(surrogates@, node_work, index@.runs, deleted_nodes@));
    assert(probed(present@, edge_work, index@.runs, UuidIndexKind::Edge, deleted_edges@));
    Ok((nodes, edges))
}

/// Retained ordinal identity that a rewrite continues.
#[derive(Debug, PartialEq, Eq)]
pub struct OrdinalInputs {
    /// Inventory.
    pub manifest: V4OrdinalIdentityManifest,
    /// Artifacts that the inventory names.
    pub pinned: Vec<V4ArtifactFile>,
    /// Limits of sorting.
    pub limits: UuidIndexBuildLimits,
    /// Most ranges of one delta.
    pub bounds: V4OrdinalBounds,
}

/// An index update that a rewrite commits.
#[derive(Debug, PartialEq, Eq)]
pub struct PreparedRewrite {
    /// Update of the membership index.
    pub membership: PlannedDelta,
    /// Update of the ordinal identity, where there is one.
    pub ordinal: Option<PlannedV4OrdinalDelta>,
    /// Digest of the resolved delta.
    pub topology_delta_sha256: String,
    /// Orphans collected before.
    pub orphan_gc: UuidIndexOrphanGcWork,
}

impl PreparedRewrite {
    /// The index whose receipt the rewrite commits with: the ordinal identity
    /// where there is one.
    pub fn receipt_facet(&self) -> (facet: IndexFacet)
        ensures
            facet == (if self.ordinal is Some {
                IndexFacet::Ordinal
            } else {
                IndexFacet::Membership
            }),
    {
        match &self.ordinal {
            Some(_) => IndexFacet::Ordinal,
            None => IndexFacet::Membership,
        }
    }
}

/// The identifiers of nodes.
pub open spec fn buried(nodes: Seq<ForwardRecord>) -> Seq<NodeTombstone> {
    nodes.map_values(|node: ForwardRecord| NodeTombstone { node_id: node.node_id })
}

fn bury(nodes: &Vec<ForwardRecord>) -> (ids: Vec<NodeTombstone>)
    ensures
        ids@ == buried(nodes@),
{
    let mut ids: Vec<NodeTombstone> = Vec::new();
    let mut i: usize = 0;
    while i < nodes.len()
        invariant
            i <= nodes@.len(),
            ids@ == buried(nodes@).take(i as int),
        decreases nodes.len() - i,
    {
        ids.push(NodeTombstone { node_id: nodes[i].node_id });
        i = i + 1;
        assert(ids@ =~= buried(nodes@).take(i as int));
    }
    assert(buried(nodes@).take(i as int) =~= buried(nodes@));
    ids
}

/// The delta with its deletions resolved.
pub open spec fn resolved_delta(
    delta: TopologyDeltaModel,
    nodes: Seq<ForwardRecord>,
    edges: Seq<u128>,
) -> DeltaModel {
    DeltaModel {
        nodes: delta.nodes,
        edges: delta.edges,
        deleted_nodes: nodes,
        deleted_edges: edges,
    }
}

/// What an ordinal update is planned from.
pub open spec fn ordinal_input(
    context: RewriteContext,
    inputs: OrdinalInputs,
    resolved: DeltaModel,
    digest: Seq<char>,
) -> DeltaInput {
    DeltaInput {
        current: context.prior,
        generation: context.next,
        manifest: inputs.manifest@,
        pinned: views(inputs.pinned@),
        nodes: resolved.nodes,
        deleted: buried(resolved.deleted_nodes),
        digest,
        limits: inputs.limits,
        bounds: inputs.bounds,
    }
}

/// Whether an update is the one for a resolved delta.
pub open spec fn prepares(
    prepared: PreparedRewrite,
    context: RewriteContext,
    index: IndexModel,
    admitted: (u64, u64),
    resolved: DeltaModel,
    ordinal: Option<OrdinalInputs>,
    orphan_gc: UuidIndexOrphanGcWork,
) -> bool {
    &&& context.next == sat_add(context.prior, 1)
    &&& planning(
        Ok(prepared.membership),
        context.prior,
        context.next,
        Some(index),
        admitted,
        resolved,
    )
    &&& is_delta_digest(prepared.topology_delta_sha256@, resolved)
    &&& match (prepared.ordinal, ordinal) {
        (None, None) => true,
        (Some(planned), Some(inputs)) => {
            let input = ordinal_input(
                context,
                inputs,
                resolved,
                prepared.topology_delta_sha256@,
            );
            delta_outcome(input) is Ok && publishes(planned, delta_outcome(input)->Ok_0, input)
        },
        _ => false,
    }
    &&& prepared.orphan_gc == orphan_gc
}

/// Whether preparing the update for a resolved delta ends with this error.
pub open spec fn preparation_fails(
    error: GfError,
    context: RewriteContext,
    index: IndexModel,
    admitted: (u64, u64),
    resolved: DeltaModel,
    ordinal: Option<OrdinalInputs>,
) -> bool {
    if context.next != sat_add(context.prior, 1) {
        error.is_storage("prepared UUID delta generation is not the next generation"@)
    } else {
        ||| planning(
            Err(error),
            context.prior,
            context.next,
            Some(index),
            admitted,
            resolved,
        )
        ||| ordinal is Some && exists|digest: Seq<char>| #[trigger]
            is_delta_digest(digest, resolved) && ordinal_fails(
                error,
                ordinal_input(context, ordinal->0, resolved, digest),
            )
    }
}

/// Whether planning an ordinal update ends with this error.
pub open spec fn ordinal_fails(error: GfError, input: DeltaInput) -> bool {
    delta_outcome(input) matches Err(text) && error.is_storage(text)
}

/// Whether a result is that of preparing the update of a rewrite.
pub open spec fn preparing(
    result: Result<PreparedRewrite, GfError>,
    context: RewriteContext,
    index: IndexModel,
    admitted: (u64, u64),
    delta: TopologyDeltaModel,
    ordinal: Option<OrdinalInputs>,
    orphan_gc: UuidIndexOrphanGcWork,
) -> bool {
    match result {
        Ok(prepared) => exists|nodes: Seq<ForwardRecord>, edges: Seq<u128>|
            {
                &&& #[trigger] resolves(
                    nodes,
                    edges,
                    index.runs,
                    delta.deleted_nodes,
                    delta.deleted_edges,
                )
                &&& prepares(
                    prepared,
                    context,
                    index,
                    admitted,
                    resolved_delta(delta, nodes, edges),
                    ordinal,
                    orphan_gc,
                )
            },
        Err(error) => {
            ||| unresolvable(error, index.runs, delta.deleted_nodes, delta.deleted_edges)
            ||| exists|nodes: Seq<ForwardRecord>, edges: Seq<u128>|
                {
                    &&& #[trigger] resolves(
                        nodes,
                        edges,
                        index.runs,
                        delta.deleted_nodes,
                        delta.deleted_edges,
                    )
                    &&& preparation_fails(
                        error,
                        context,
                        index,
                        admitted,
                        resolved_delta(delta, nodes, edges),
                        ordinal,
                    )
                }
        },
    }
}

/// Prepare the index update of a rewrite that changes topology: deletions are
/// resolved against the index, the membership index is updated, and the
/// ordinal identity where there is one.
pub fn prepare_rewrite(
    context: RewriteContext,
    index: UuidMembershipIndex,
    admitted: (u64, u64),
    delta: UuidTopologyDelta,
    ordinal: Option<OrdinalInputs>,
    orphan_gc: UuidIndexOrphanGcWork,
) -> (result: Result<PreparedRewrite, GfError>)
    requires
        ordinal matches Some(inputs) ==> inputs.limits.valid() && delta_filled(
            inputs.manifest@,
            context.next,
        ),
    ensures
        preparing(result, context, index@, admitted, delta@, ordinal, orphan_gc),
{
    let ghost model = index@;
    let ghost stated = delta@;
    let (deleted_nodes, deleted_edges): (Vec<ForwardRecord>, Vec<u128>) = match resolve_deletions(
        &index,
        &delta.deleted_nodes,
        &delta.deleted_edges,
    ) {
        Ok(resolved) => resolved,
        Err(error) => {
            return Err(error);
        },
    };
    let ghost nodes = deleted_nodes@;
    let ghost edges = deleted_edges@;
    assert(resolves(nodes, edges, model.runs, stated.deleted_nodes, stated.deleted_edges));
    let resolved = IdentityDelta {
        nodes: delta.nodes,
        edges: delta.edges,
        deleted_nodes,
        deleted_edges,
    };
    assert(resolved@ == resolved_delta(stated, nodes, edges));
    let membership: PlannedDelta = match prepare_uuid_membership_delta(
        context.prior,
        context.next,
        true,
        Some(index),
        admitted,
        &resolved,
    ) {
        Ok(planned) => planned,
        Err(error) => {
            assert(preparation_fails(error, context, model, admitted, resolved@, ordinal));
            return Err(error);
        },
    };
    let digest: String = topology_delta_sha256(&resolved);
    let ordinal_plan: Option<PlannedV4OrdinalDelta> = match &ordinal {
        Some(inputs) => {
            let ids: Vec<NodeTombstone> = bury(&resolved.deleted_nodes);
            match prepare_v4_ordinal_delta(
                context.prior,
                context.next,
                &inputs.manifest,
                &inputs.pinned,
                &resolved.nodes,
                &ids,
                digest.as_str(),
                inputs.limits,
                inputs.bounds,
            ) {
                Ok(planned) => Some(planned),
                Err(error) => {
                    assert(is_delta_digest(digest@, resolved@) && ordinal_fails(
                        error,
                        ordinal_input(context, ordinal->0, resolved@, digest@),
                    ));
                    assert(preparation_fails(error, context, model, admitted, resolved@, ordinal));
                    return Err(error);
                },
            }
        },
        None => None,
    };
    let prepared = PreparedRewrite {
        membership,
        ordinal: ordinal_plan,
        topology_delta_sha256: digest,
        orphan_gc,
    };
    assert(prepares(prepared, context, model, admitted, resolved@, ordinal, orphan_gc));
    Ok(prepared)
}

/// What is done once the durable rewrite has answered.
#[derive(Debug, PartialEq, Eq)]
pub enum AfterCommit {
    /// The rewrite took place, or changed no topology.
    Settle {
        /// Topology generation that was committed.
        generation: Option<u64>,
    },
    /// Find out whether it took place all the same.
    Reconcile {
        /// What the rewrite reported.
        error: GfError,
        /// Topology generation that it would have committed.
        next: u64,
    },
    /// It did not take place.
    Fail {
        /// What the rewrite reported.
        error: GfError,
        /// What becomes of the snapshot.
        snapshot: SnapshotFate,
    },
}

/// The fate of a snapshot that may have given up its manifest.
pub open spec fn fate_of(suspended: bool) -> SnapshotFate {
    if suspended {
        SnapshotFate::Drop
    } else {
        SnapshotFate::Keep
    }
}

fn snapshot_fate(suspended: bool) -> (fate: SnapshotFate)
    ensures
        fate == fate_of(suspended),
{
    if suspended {
        SnapshotFate::Drop
    } else {
        SnapshotFate::Keep
    }
}

/// What follows the answer of the durable rewrite.
pub open spec fn committing(
    commit: Result<Option<u64>, GfError>,
    prepared: bool,
    context: Option<RewriteContext>,
    suspended: bool,
) -> AfterCommit {
    match commit {
        Ok(generation) => AfterCommit::Settle { generation },
        Err(error) => if prepared && context is Some {
            AfterCommit::Reconcile { error, next: context->0.next }
        } else {
            AfterCommit::Fail { error, snapshot: fate_of(suspended) }
        },
    }
}

/// Decide what follows the answer of the durable rewrite.
///
/// `prepared` says whether an update was staged, `context` is what the
/// participant was told, and `suspended` whether the snapshot has given up its
/// manifest.
pub fn after_commit(
    commit: Result<Option<u64>, GfError>,
    prepared: bool,
    context: Option<RewriteContext>,
    suspended: bool,
) -> (next: AfterCommit)
    ensures
        next == committing(commit, prepared, context, suspended),
{
    match commit {
        Ok(generation) => AfterCommit::Settle { generation },
        Err(error) => match context {
            Some(context) if prepared => AfterCommit::Reconcile { error, next: context.next },
            _ => AfterCommit::Fail { error, snapshot: snapshot_fate(suspended) },
        },
    }
}

/// What is done once the receipts have been looked at.
#[derive(Debug, PartialEq, Eq)]
pub enum AfterReconcile {
    /// The rewrite took place after all.
    Settle {
        /// Topology generation that was committed.
        generation: u64,
    },
    /// It did not: the snapshot takes its manifest back.
    Restore {
        /// What the rewrite reported.
        error: GfError,
    },
    /// It cannot be told.
    Fail {
        /// What is reported.
        error: GfError,
        /// What becomes of the snapshot.
        snapshot: SnapshotFate,
    },
}

/// What the two receipts say together.
pub open spec fn agreed(
    membership: Result<AuxiliaryReconcileOutcome, GfError>,
    ordinal: Option<Result<AuxiliaryReconcileOutcome, GfError>>,
) -> Result<AuxiliaryReconcileOutcome, Seq<char>> {
    match membership {
        Err(error) => Err(error.text()),
        Ok(outcome) => match ordinal {
            None => Ok(outcome),
            Some(Err(error)) => Err(error.text()),
            Some(Ok(other)) => if other == outcome {
                Ok(outcome)
            } else {
                Err("v3 and v4 auxiliary reconciliation outcomes disagree"@)
            },
        },
    }
}

/// Whether this is what follows the look at the receipts.
pub open spec fn reconciles(
    next: AfterReconcile,
    error: GfError,
    outcome: Result<AuxiliaryReconcileOutcome, Seq<char>>,
    generation: u64,
    suspended: bool,
) -> bool {
    match outcome {
        Ok(AuxiliaryReconcileOutcome::Committed) => next == (AfterReconcile::Settle { generation }),
        Ok(AuxiliaryReconcileOutcome::NotCommitted) => next == (AfterReconcile::Restore { error }),
        Err(text) => {
            &&& next matches AfterReconcile::Fail { error: reported, snapshot }
            &&& reported.is_storage(error.text() + "; UUID reconciliation failed: "@ + text)
            &&& snapshot == fate_of(suspended)
        },
    }
}

/// Decide what follows the look at the receipts of a rewrite that reported an
/// error. The ordinal receipt is there where an ordinal update was staged.
pub fn after_reconcile(
    error: GfError,
    membership: Result<AuxiliaryReconcileOutcome, GfError>,
    ordinal: Option<Result<AuxiliaryReconcileOutcome, GfError>>,
    generation: u64,
    suspended: bool,
) -> (next: AfterReconcile)
    ensures
        reconciles(next, error, agreed(membership, ordinal), generation, suspended),
{
    let outcome: Result<AuxiliaryReconcileOutcome, GfError> = match membership {
        Err(failure) => Err(failure),
        Ok(outcome) => match ordinal {
            None => Ok(outcome),
            Some(Err(failure)) => Err(failure),
            Some(Ok(other)) => if other == outcome {
                Ok(outcome)
            } else {
                Err(storage_err("v3 and v4 auxiliary reconciliation outcomes disagree"))
            },
        },
    };
    match outcome {
        Ok(AuxiliaryReconcileOutcome::Committed) => AfterReconcile::Settle { generation },
        Ok(AuxiliaryReconcileOutcome::NotCommitted) => AfterReconcile::Restore { error },
        Err(failure) => {
            let mut text: String = error.message();
            text.append("; UUID reconciliation failed: ");
            text.append(failure.message().as_str());
            AfterReconcile::Fail {
                error: GfError::Storage(text),
                snapshot: snapshot_fate(suspended),
            }
        },
    }
}

/// Whether this is what is reported once a snapshot has tried to take its
/// manifest back, and what becomes of it.
pub open spec fn restores(
    reported: (GfError, SnapshotFate),
    error: GfError,
    restored: Result<(), GfError>,
) -> bool {
    match restored {
        Ok(()) => reported == (error, SnapshotFate::Keep),
        Err(failure) => reported.0.is_storage(
            error.text() + "; UUID snapshot restoration failed: "@ + failure.text(),
        ) && reported.1 == SnapshotFate::Drop,
    }
}

/// What is reported once a snapshot has tried to take its manifest back, and
/// what becomes of it.
pub fn after_restore(error: GfError, restored: Result<(), GfError>) -> (reported: (
    GfError,
    SnapshotFate,
))
    ensures
        restores(reported, error, restored),
{
    match restored {
        Ok(()) => (error, SnapshotFate::Keep),
        Err(failure) => {
            let mut text: String = error.message();
            text.append("; UUID snapshot restoration failed: ");
            text.append(failure.message().as_str());
            (GfError::Storage(text), SnapshotFate::Drop)
        },
    }
}

/// Work of a committed rewrite.
#[derive(Clone, Copy, Debug, PartialEq, Eq, Structural)]
pub struct CommittedWork {
    /// Work of the membership index.
    pub append: UuidIndexAppendMetrics,
    /// Orphans collected.
    pub orphan_gc: UuidIndexOrphanGcWork,
    /// Work of the ordinal identity, where there is one.
    pub ordinal: Option<V4OrdinalAppendMetrics>,
}

/// What a rewrite has done.
#[derive(Debug, PartialEq, Eq)]
pub enum CommittedUuidTopologyRewrite {
    /// Topology is as before.
    NoTopologyChange,
    /// Topology and index were committed.
    Committed {
        /// Topology generation.
        generation: u64,
        /// Work; absent where no index update was staged.
        index_work: Option<CommittedWork>,
    },
    /// Topology and index were committed; the snapshot could not follow.
    CommittedNeedsRefresh {
        /// Topology generation.
        generation: u64,
        /// Work.
        work: CommittedWork,
        /// Why the snapshot could not follow.
        error: GfError,
    },
}

/// What is still to be looked at before a committed rewrite is reported.
#[derive(Debug, PartialEq, Eq)]
pub enum Settlement {
    /// Nothing: this is reported.
    Done(CommittedUuidTopologyRewrite),
    /// The staged updates are held against the committed generation, and the
    /// snapshot follows.
    Verify {
        /// Topology generation.
        generation: u64,
        /// Work.
        work: CommittedWork,
    },
}

/// Decide whether a committed rewrite has to be verified.
pub fn settle(committed: Option<u64>, work: Option<CommittedWork>) -> (settlement: Settlement)
    ensures
        settlement == (match committed {
            None => Settlement::Done(CommittedUuidTopologyRewrite::NoTopologyChange),
            Some(generation) => match work {
                None => Settlement::Done(
                    CommittedUuidTopologyRewrite::Committed { generation, index_work: None },
                ),
                Some(work) => Settlement::Verify { generation, work },
            },
        }),
{
    match committed {
        None => Settlement::Done(CommittedUuidTopologyRewrite::NoTopologyChange),
        Some(generation) => match work {
            None => Settlement::Done(
                CommittedUuidTopologyRewrite::Committed { generation, index_work: None },
            ),
            Some(work) => Settlement::Verify { generation, work },
        },
    }
}

/// What is reported of a committed rewrite, and what becomes of the snapshot.
pub open spec fn finishing(
    generation: u64,
    work: CommittedWork,
    verified: Result<(), GfError>,
    refreshed: Result<(), GfError>,
) -> (Result<CommittedUuidTopologyRewrite, GfError>, SnapshotFate) {
    match verified {
        Err(error) => (
            Err::<CommittedUuidTopologyRewrite, GfError>(error),
            SnapshotFate::Drop,
        ),
        Ok(()) => match refreshed {
            Err(error) => (
                Ok::<CommittedUuidTopologyRewrite, GfError>(
                    CommittedUuidTopologyRewrite::CommittedNeedsRefresh {
                        generation,
                        work,
                        error,
                    },
                ),
                SnapshotFate::Drop,
            ),
            Ok(()) => (
                Ok::<CommittedUuidTopologyRewrite, GfError>(
                    CommittedUuidTopologyRewrite::Committed { generation, index_work: Some(work) },
                ),
                SnapshotFate::Keep,
            ),
        },
    }
}

/// What is reported of a committed rewrite, and what becomes of the snapshot.
///
/// `verified` says whether the staged updates are those of the committed
/// generation, `refreshed` whether the snapshot could follow; the latter is
/// looked at only where the former holds.
pub fn finish_rewrite(
    generation: u64,
    work: CommittedWork,
    verified: Result<(), GfError>,
    refreshed: Result<(), GfError>,
) -> (reported: (Result<CommittedUuidTopologyRewrite, GfError>, SnapshotFate))
    ensures
        reported == finishing(generation, work, verified, refreshed),
{
    match verified {
        Err(error) => (Err(error), SnapshotFate::Drop),
        Ok(()) => match refreshed {
            Err(error) => (
                Ok(CommittedUuidTopologyRewrite::CommittedNeedsRefresh { generation, work, error }),
                SnapshotFate::Drop,
            ),
            Ok(()) => (
                Ok(CommittedUuidTopologyRewrite::Committed { generation, index_work: Some(work) }),
                SnapshotFate::Keep,
            ),
        },
    }
}

/// The digits of a number.
pub open spec fn decimal_chars(value: u64) -> Seq<char> {
    ascii(decimal_text(value as nat))
}

/// Whether a result is that of a rewrite that changes no identity.
pub open spec fn neutrally(
    result: Result<Option<u64>, GfError>,
    rewrite: CommittedUuidTopologyRewrite,
) -> bool {
    match rewrite {
        CommittedUuidTopologyRewrite::NoTopologyChange => result == Ok::<Option<u64>, GfError>(
            None,
        ),
        CommittedUuidTopologyRewrite::Committed { generation, index_work: _ } => result == Ok::<
            Option<u64>,
            GfError,
        >(Some(generation)),
        CommittedUuidTopologyRewrite::CommittedNeedsRefresh { generation, work: _, error } => {
            result matches Err(reported) && reported.is_storage(
                "topology generation "@ + decimal_chars(generation)
                    + " committed but UUID index snapshot refresh failed: "@ + error.text(),
            )
        },
    }
}

/// What is reported of a rewrite that changes no identity: the committed
/// generation, and a snapshot that could not follow as an error.
pub fn neutral_outcome(rewrite: CommittedUuidTopologyRewrite) -> (result: Result<
    Option<u64>,
    GfError,
>)
    ensures
        neutrally(result, rewrite),
{
    match rewrite {
        CommittedUuidTopologyRewrite::NoTopologyChange => Ok(None),
        CommittedUuidTopologyRewrite::Committed { generation, index_work: _ } => Ok(Some(generation)),
        CommittedUuidTopologyRewrite::CommittedNeedsRefresh { generation, work: _, error } => {
            let mut text: String = "topology generation ".to_owned();
            text.append(decimal(generation).as_str());
            text.append(" committed but UUID index snapshot refresh failed: ");
            text.append(error.message().as_str());
            Err(GfError::Storage(text))
        },
    }
}

} // verus!
