//! Topology rewrites: deciding, reconciling, cleaning up and verifying.
use graphforge_storage::bytes::{decimal, encode_hex};
use graphforge_storage::construction::ConstructionRecoveryIntent;
use graphforge_storage::digest::hex_sha256;
use graphforge_storage::error::{storage_err, GfError};
use graphforge_storage::external_sort::UuidIndexBuildLimits;
use graphforge_storage::maintenance::{
    authenticated_v3_membership_authority, check_standalone_v4_receipt, selected_membership_authority,
    SelectedManifest,
    UuidIndexOrphanGcWork,
};
use graphforge_storage::membership::UuidMembershipIndex;
use graphforge_storage::migration::{
    canonical_node_topology_inventory_path, check_selected_graph, container_of,
    ordinal_rebuild_receipt,
};
use graphforge_storage::ordinal_construction::{
    V4ConstructionArtifactBundle, V4OrdinalConstructionWriter,
};
use graphforge_storage::ordinal_manifest::{encode_v4_manifest, V4OrdinalBounds};
use graphforge_storage::ordinal_rebuild::rebuild_v4_ordinal_identity;
use graphforge_storage::plan_cleanup::{
    cleanup_abandoned_v4_plan_directories, combine_cache_cleanup, combine_v4_cleanup,
    merge_cache_release_evidence, FileCacheReleaseEvidence, PlanDirectory, PlanFile,
    V4_PLAN_CLEANUP_BYTES, V4_PLAN_PREFIX,
};
use graphforge_storage::private_names::{canonical_lower_hex, is_exact_private_v4_name};
use graphforge_storage::private_residue::{
    cleanup_private_construction_index, ControlNames, ParsedControls, ORDINAL_LOCK,
};
use graphforge_storage::publication_guard::{
    cleanup_checked, observe_named, rebinds, reconcile_removed, AccountStep,
};
use graphforge_storage::rebuild::{rebuild_uuid_membership_indexes, NodeRow};
use graphforge_storage::receipts::{
    admit_control_record, auxiliary_receipt, reconcile_auxiliary, topology_receipt,
    AuxiliaryReconcileOutcome, IndexFacet, TopologyIndexReceipt, INDEX_DIR,
};
use graphforge_storage::records::ForwardRecord;
use graphforge_storage::rewrite::{
    admit_snapshot, after_commit, after_reconcile, after_restore, finish_rewrite, neutral_outcome,
    participant_step, prepare_rewrite, rewrite_needed, settle, AfterCommit, AfterReconcile,
    CommittedUuidTopologyRewrite, CommittedWork, OrdinalInputs, ParticipantStep, PreparedRewrite,
    RewriteContext, Settlement, SnapshotFate, UuidTopologyDelta,
};
use graphforge_storage::snapshot::{
    AuthenticatedUuidIndexSnapshot, FileHandle, FileIdentity, IndexSight, NamedFile, SeenFile,
};
use graphforge_storage::verify::{
    is_canonical_hex_segment, verify_project_store, ObjectBucket, ObjectEntry, ProjectStore,
    VerifyCategoryCounts,
};

const BOUNDS: V4OrdinalBounds = V4OrdinalBounds {
    ranges: 1024,
    manifest_bytes: 1 << 20,
};

const WIDE: UuidIndexBuildLimits = UuidIndexBuildLimits {
    scan_batch_rows: 8192,
    run_records: 65_536,
    merge_fan_in: 16,
};

fn identity(file_id: u128) -> FileIdentity {
    FileIdentity { volume: 1, file_id }
}

fn seen(file_id: u128, bytes: &[u8]) -> SeenFile {
    SeenFile {
        identity: identity(file_id),
        links: 1,
        links_safe: true,
        bytes: bytes.to_vec(),
    }
}

fn encoded(index: &UuidMembershipIndex) -> Vec<u8> {
    format!("{:?}", index.manifest()).into_bytes()
}

fn sight_of(index: &UuidMembershipIndex, manifest_id: u128) -> IndexSight {
    let mut files = Vec::new();
    for (at, run) in index.runs.iter().enumerate() {
        let base = 1000 + 2 * at as u128;
        files.push(NamedFile {
            name: run.descriptor.identities.name.clone(),
            file: seen(base, &run.identities),
        });
        files.push(NamedFile {
            name: run.descriptor.node_surrogates.name.clone(),
            file: seen(base + 1, &run.node_surrogates),
        });
    }
    IndexSight {
        graph_root: identity(1),
        root: identity(2),
        manifest_name: "membership.json".to_owned(),
        manifest: Some(seen(manifest_id, &encoded(index))),
        parsed: Some(index.manifest()),
        held_manifest: FileHandle {
            identity: identity(manifest_id),
            links: 1,
        },
        files,
        objects: vec![],
    }
}

fn change(nodes: &[(u128, u64)], edges: &[u128]) -> UuidTopologyDelta {
    UuidTopologyDelta {
        nodes: nodes
            .iter()
            .map(|(uuid, node_id)| ForwardRecord {
                uuid: *uuid,
                node_id: *node_id,
            })
            .collect(),
        edges: edges.to_vec(),
        deleted_nodes: vec![],
        deleted_edges: vec![],
    }
}

fn step(prior: u64) -> RewriteContext {
    RewriteContext {
        same_root: true,
        prior,
        next: prior + 1,
    }
}

fn prepare(prior: u64, index: UuidMembershipIndex, delta: UuidTopologyDelta) -> PreparedRewrite {
    prepare_rewrite(
        step(prior),
        index,
        (0, 0),
        delta,
        None,
        UuidIndexOrphanGcWork::none(),
    )
    .unwrap()
}

#[test]
fn owned_manifest_returned_error_restores_snapshot_for_same_process_retry() {
    let (first, second) = (201_u128, 202_u128);
    let prepared = prepare(0, UuidMembershipIndex::empty(), change(&[(first, 1)], &[]));
    let sight = sight_of(&prepared.membership.index, 10);
    let mut snapshot =
        AuthenticatedUuidIndexSnapshot::open_at_generation("/graph", &sight, 1).unwrap();
    let old = snapshot.manifest_identity;

    snapshot.suspend_owned_manifest();
    let failed = after_commit(
        Err(storage_err("injected manifest suspension")),
        true,
        Some(step(1)),
        true,
    );
    let (error, next) = match failed {
        AfterCommit::Reconcile { error, next } => (error, next),
        other => panic!("{other:?}"),
    };
    assert_eq!(next, 2);
    let error = match after_reconcile(
        error,
        Ok(AuxiliaryReconcileOutcome::NotCommitted),
        None,
        next,
        true,
    ) {
        AfterReconcile::Restore { error } => error,
        other => panic!("{other:?}"),
    };
    let (error, fate) = after_restore(error, snapshot.restore_owned_manifest(&sight));
    assert!(error.message().contains("injected manifest suspension"));
    assert_eq!(fate, SnapshotFate::Keep);
    assert_eq!(snapshot.manifest_identity, old);
    snapshot.revalidate(&sight).unwrap();
    assert_eq!(snapshot.topology_generation(), 1);

    let retried = prepare(1, prepared.membership.index, change(&[(second, 2)], &[]));
    let later = sight_of(&retried.membership.index, 20);
    let manifest = retried.membership.index.manifest();
    snapshot
        .advance_to(&manifest, &encoded(&retried.membership.index), &later)
        .unwrap();
    assert_eq!(
        snapshot
            .index
            .lookup_node_surrogates(&[first, second])
            .unwrap()
            .0,
        [Some(1), Some(2)]
    );
}

#[test]
fn owned_manifest_same_writer_successive_flushes_preserve_incremental_snapshot() {
    let (first, second) = (101_u128, 102_u128);
    let flushed = prepare(0, UuidMembershipIndex::empty(), change(&[(first, 1)], &[]));
    let sight = sight_of(&flushed.membership.index, 10);
    let mut snapshot =
        AuthenticatedUuidIndexSnapshot::open_at_generation("/graph", &sight, 1).unwrap();
    let old = snapshot.manifest_identity;
    let again = prepare(
        1,
        flushed.membership.index,
        change(&[(second, 2)], &[103]),
    );
    let later = sight_of(&again.membership.index, 20);
    let manifest = again.membership.index.manifest();
    snapshot
        .advance_to(&manifest, &encoded(&again.membership.index), &later)
        .unwrap();
    assert_ne!(snapshot.manifest_identity, old);
    assert_eq!(snapshot.topology_generation(), 2);
    assert_eq!(again.membership.metrics.prior_topology_rows_decoded, 0);
    assert_eq!(
        snapshot
            .index
            .lookup_node_surrogates(&[first, second])
            .unwrap()
            .0,
        [Some(1), Some(2)]
    );
}

#[test]
fn standalone_existing_v4_advances_with_topology_transaction() {
    let rows: Vec<NodeRow> = [3_u128, 1, 2]
        .iter()
        .zip(1_u64..)
        .map(|(uuid, id)| NodeRow {
            row: id - 1,
            uuid: Some(*uuid),
            node_id: Some(id),
        })
        .collect();
    let index = rebuild_uuid_membership_indexes(7, &rows, &vec![], WIDE)
        .unwrap()
        .index;
    let ordinal = rebuild_v4_ordinal_identity(7, &rows, WIDE, BOUNDS).unwrap();
    let prepared = prepare_rewrite(
        step(7),
        index,
        (0, 0),
        change(&[], &[]),
        Some(OrdinalInputs {
            manifest: ordinal.bundle.manifest,
            pinned: ordinal.bundle.files,
            limits: WIDE,
            bounds: BOUNDS,
        }),
        UuidIndexOrphanGcWork::none(),
    )
    .unwrap();
    assert_eq!(prepared.receipt_facet(), IndexFacet::Ordinal);
    assert_eq!(
        prepared.ordinal.as_ref().unwrap().manifest.topology_generation,
        8
    );
    let work = CommittedWork {
        append: prepared.membership.metrics,
        orphan_gc: prepared.orphan_gc,
        ordinal: None,
    };
    assert!(matches!(
        settle(Some(8), Some(work)),
        Settlement::Verify { generation: 8, .. }
    ));
    let (reported, fate) = finish_rewrite(8, work, Ok(()), Ok(()));
    assert!(matches!(
        reported,
        Ok(CommittedUuidTopologyRewrite::Committed { generation: 8, .. })
    ));
    assert_eq!(fate, SnapshotFate::Keep);
}

#[test]
fn rewrites_without_a_transition_change_nothing() {
    assert!(!rewrite_needed(&change(&[], &[]), true));
    assert!(rewrite_needed(&change(&[], &[]), false));
    assert!(rewrite_needed(&change(&[], &[1]), true));
    let stays = RewriteContext {
        same_root: true,
        prior: 3,
        next: 3,
    };
    assert_eq!(
        participant_step(stays, &change(&[], &[])).unwrap(),
        ParticipantStep::NoTransition
    );
    assert_eq!(
        participant_step(stays, &change(&[], &[1])).unwrap_err().message(),
        "UUID identity delta did not stage a topology transition"
    );
    let elsewhere = RewriteContext {
        same_root: false,
        prior: 3,
        next: 4,
    };
    assert!(participant_step(elsewhere, &change(&[], &[])).is_err());
    assert_eq!(
        participant_step(step(3), &change(&[], &[])).unwrap(),
        ParticipantStep::Prepare
    );
    assert!(matches!(
        settle(None, None),
        Settlement::Done(CommittedUuidTopologyRewrite::NoTopologyChange)
    ));
    assert_eq!(
        neutral_outcome(CommittedUuidTopologyRewrite::NoTopologyChange).unwrap(),
        None
    );
}

#[test]
fn snapshots_are_kept_only_at_the_prior_generation() {
    assert_eq!(admit_snapshot(true, Some(4), 4).unwrap(), SnapshotFate::Keep);
    assert_eq!(admit_snapshot(true, Some(3), 4).unwrap(), SnapshotFate::Drop);
    assert_eq!(admit_snapshot(true, None, 4).unwrap(), SnapshotFate::Drop);
    assert!(admit_snapshot(false, Some(4), 4).is_err());
}

#[test]
fn disagreeing_reconciliations_are_reported() {
    let next = after_reconcile(
        storage_err("interrupted"),
        Ok(AuxiliaryReconcileOutcome::Committed),
        Some(Ok(AuxiliaryReconcileOutcome::NotCommitted)),
        5,
        true,
    );
    match next {
        AfterReconcile::Fail { error, snapshot } => {
            assert_eq!(
                error.message(),
                "interrupted; UUID reconciliation failed: \
                 v3 and v4 auxiliary reconciliation outcomes disagree"
            );
            assert_eq!(snapshot, SnapshotFate::Drop);
        }
        other => panic!("{other:?}"),
    }
    assert!(matches!(
        after_reconcile(
            storage_err("interrupted"),
            Ok(AuxiliaryReconcileOutcome::Committed),
            None,
            5,
            false
        ),
        AfterReconcile::Settle { generation: 5 }
    ));
}

#[test]
fn deletions_of_unknown_identities_are_left_out() {
    let prepared = prepare(0, UuidMembershipIndex::empty(), change(&[(1, 1), (3, 3)], &[2]));
    let mut delta = change(&[], &[]);
    delta.deleted_nodes = vec![9, 3];
    delta.deleted_edges = vec![1, 2];
    let after = prepare(1, prepared.membership.index, delta);
    assert_eq!(after.membership.metrics.input_records, 2);
    let index = after.membership.index;
    assert_eq!(
        index.lookup_node_surrogates(&[1, 3]).unwrap().0,
        [Some(1), None]
    );
    assert_eq!((index.live_node_count, index.live_edge_count), (1, 0));
}

fn bundle() -> V4ConstructionArtifactBundle {
    V4OrdinalConstructionWriter::start(1, BOUNDS)
        .unwrap()
        .push_pair(1, 1, false)
        .unwrap()
        .push_pair(2, 3, false)
        .unwrap()
        .finish()
        .unwrap()
}

fn names() -> ControlNames {
    ControlNames {
        receipt: "ordinal-v4.receipt".to_owned(),
        manifest: "ordinal-v4.manifest".to_owned(),
        intent: "construction.intent".to_owned(),
        index: "membership.json".to_owned(),
    }
}

fn named(name: &str, bytes: &[u8]) -> NamedFile {
    NamedFile {
        name: name.to_owned(),
        file: seen(50, bytes),
    }
}

fn facet() -> (Vec<NamedFile>, ParsedControls) {
    let staged = bundle();
    let body = encode_v4_manifest(&staged.manifest);
    let receipt = topology_receipt(&"0a".repeat(16), 1, &hex_sha256(b"delta"), &body);
    let mut files: Vec<NamedFile> = staged
        .files
        .iter()
        .map(|file| named(&file.descriptor.name, &file.bytes))
        .collect();
    files.push(named("ordinal-v4.receipt", b"receipt"));
    files.push(named("ordinal-v4.manifest", &body));
    files.push(named(ORDINAL_LOCK, b""));
    let parsed = ParsedControls {
        receipt: Some(receipt),
        manifest: Some(staged.manifest),
        temporary_receipt: None,
        temporary_manifest: None,
        intent: None,
    };
    (files, parsed)
}

#[test]
fn cleanup_authenticates_complete_unpublished_v4_facet() {
    let (files, parsed) = facet();
    let cleanup = cleanup_private_construction_index(&files, &names(), &parsed, 1 << 20);
    assert_eq!(cleanup.fault, None);
    assert_eq!(cleanup.removed.len(), files.len());
}

#[test]
fn cleanup_leaves_what_it_cannot_authenticate() {
    let (mut files, parsed) = facet();
    files.push(named("notes.txt", b"mine"));
    let cleanup = cleanup_private_construction_index(&files, &names(), &parsed, 1 << 20);
    assert!(cleanup.fault.is_some());
    assert!(!cleanup.removed.contains(&"notes.txt".to_owned()));

    let (mut files, parsed) = facet();
    files[0].file.bytes.push(0);
    let cleanup = cleanup_private_construction_index(&files, &names(), &parsed, 1 << 20);
    assert!(cleanup.fault.is_some());
    assert!(cleanup.removed.is_empty());

    let (mut files, parsed) = facet();
    files.retain(|file| file.name != "ordinal-v4.receipt");
    let cleanup = cleanup_private_construction_index(&files, &names(), &parsed, 1 << 20);
    assert_eq!(
        cleanup.fault.unwrap().message(),
        "private v4 construction controls are not an install-order prefix"
    );

    let (mut files, mut parsed) = facet();
    files.push(named("construction.intent", b"intent"));
    let mut intent = ConstructionRecoveryIntent::sealed(
        3,
        2,
        "identities.run".to_owned(),
        7,
        "00".to_owned(),
        26,
        "11".repeat(32),
    );
    intent.generation = 4;
    parsed.intent = Some(intent);
    let cleanup = cleanup_private_construction_index(&files, &names(), &parsed, 1 << 20);
    assert_eq!(
        cleanup.fault.unwrap().message(),
        "construction recovery intent authentication failed"
    );
}

#[test]
fn private_names_are_exact() {
    let nonce = "0f".repeat(16);
    assert!(is_exact_private_v4_name(&format!(".v4-forward-{nonce}.tmp")));
    assert!(is_exact_private_v4_name(&format!(".v4-ordinal-00000001-{nonce}.tmp")));
    assert!(is_exact_private_v4_name("ordinal-v4-7-00000000000000ff.uuidx"));
    assert!(!is_exact_private_v4_name(&format!(".v4-forward-v4-{nonce}.tmp")));
    assert!(!is_exact_private_v4_name("forward-v4.uuidx"));
    assert!(canonical_lower_hex("00ff", 4));
    assert!(!canonical_lower_hex("00FF", 4));
    assert!(!canonical_lower_hex("00ff", 5));
}

fn plan(suffix: &str, bytes: u64) -> PlanDirectory {
    PlanDirectory {
        name: format!("{V4_PLAN_PREFIX}{suffix}"),
        files: vec![PlanFile { links: 1, bytes }],
    }
}

#[test]
fn abandoned_plans_are_reclaimed_within_bounds() {
    let cleanup = cleanup_abandoned_v4_plan_directories(&vec![plan("a", 3), plan("b", 4)]);
    assert_eq!((cleanup.directories, cleanup.fault), (2, None));
    let cleanup =
        cleanup_abandoned_v4_plan_directories(&vec![plan("a", 3), plan("b", V4_PLAN_CLEANUP_BYTES + 1)]);
    assert_eq!(cleanup.directories, 1);
    assert_eq!(
        cleanup.fault.unwrap().message(),
        "v4 planner cleanup byte bound exceeded"
    );
    let many: Vec<PlanDirectory> = (0..17).map(|n| plan(&decimal(n), 1)).collect();
    assert_eq!(
        cleanup_abandoned_v4_plan_directories(&many)
            .fault
            .unwrap()
            .message(),
        "v4 planner cleanup candidate bound exceeded"
    );
}

#[test]
fn cleanup_failures_follow_what_failed_first() {
    let failed = || -> Result<u8, GfError> { Err(storage_err("primary")) };
    let cleanup = || Err(storage_err("unlink"));
    assert_eq!(combine_v4_cleanup(Ok(3_u8), Ok(()), "output cleanup").unwrap(), 3);
    assert_eq!(
        combine_v4_cleanup(failed(), Ok(()), "output cleanup")
            .unwrap_err()
            .message(),
        "primary"
    );
    assert_eq!(
        combine_v4_cleanup(failed(), cleanup(), "v4 forward output cleanup")
            .unwrap_err()
            .message(),
        "primary; v4 forward output cleanup also failed: unlink"
    );
    assert_eq!(
        combine_cache_cleanup(failed(), cleanup(), "source")
            .unwrap_err()
            .message(),
        "primary; source cache release also failed: unlink"
    );
    assert_eq!(
        combine_cache_cleanup(Ok(3_u8), cleanup(), "source")
            .unwrap_err()
            .message(),
        "unlink"
    );
}

#[test]
fn cache_evidence_adds_up() {
    let one = FileCacheReleaseEvidence {
        sync_operations: 1,
        release_operations: 2,
        unsupported_operations: 0,
        released_bytes: u64::MAX,
        peak_window_bytes: 8,
    };
    let mut total = one;
    merge_cache_release_evidence(
        &mut total,
        FileCacheReleaseEvidence {
            peak_window_bytes: 5,
            ..one
        },
    );
    assert_eq!(total.sync_operations, 2);
    assert_eq!(total.released_bytes, u64::MAX);
    assert_eq!(total.peak_window_bytes, 8);
}

#[test]
fn publication_accounts_follow_the_named_file() {
    let (mine, other) = (identity(1), identity(2));
    assert_eq!(observe_named(None, Some(mine)).unwrap(), AccountStep::Leave);
    assert_eq!(
        observe_named(Some(mine), Some(mine)).unwrap(),
        AccountStep::Observe
    );
    assert!(observe_named(Some(other), Some(mine)).is_err());
    assert_eq!(reconcile_removed(None, Some(mine)).unwrap(), AccountStep::Release);
    assert_eq!(
        reconcile_removed(Some(other), Some(mine)).unwrap(),
        AccountStep::Release
    );
    assert_eq!(
        reconcile_removed(Some(mine), Some(mine)).unwrap(),
        AccountStep::Leave
    );
    assert!(reconcile_removed(Some(mine), None).is_err());
    assert!(rebinds(true, None, Some(mine)));
    assert!(rebinds(false, Some(mine), Some(mine)));
    assert!(!rebinds(false, Some(other), Some(mine)));
    assert_eq!(
        cleanup_checked(Err(storage_err("first")), Err(storage_err("second")), Ok(()))
            .unwrap_err()
            .message(),
        "first"
    );
    cleanup_checked(Ok(()), Ok(()), Ok(())).unwrap();
}

#[test]
fn receipts_bind_one_generation_and_manifest() {
    let body = b"manifest".to_vec();
    let nonce = "ab".repeat(16);
    let receipt = ordinal_rebuild_receipt(&nonce, 7, &body);
    assert_eq!(receipt.manifest_sha256, hex_sha256(&body));
    check_standalone_v4_receipt(&receipt, 7, &body).unwrap();
    assert!(check_standalone_v4_receipt(&receipt, 8, &body).is_err());
    assert!(check_standalone_v4_receipt(&receipt, 7, &b"other".to_vec()).is_err());
    for facet in [IndexFacet::Membership, IndexFacet::Ordinal] {
        reconcile_auxiliary(facet, &receipt, 7, &body, &body).unwrap();
        assert!(reconcile_auxiliary(facet, &receipt, 7, &b"other".to_vec(), &body).is_err());
        assert!(reconcile_auxiliary(facet, &receipt, 6, &body, &body).is_err());
    }
    let auxiliary = auxiliary_receipt(IndexFacet::Membership, "receipt", &body);
    assert_eq!(auxiliary.path, format!("{INDEX_DIR}/receipt"));
    assert_eq!(auxiliary.bytes, 8);
    admit_control_record(16, 16).unwrap();
    assert!(admit_control_record(17, 16).is_err());
}

fn selected(generation: u64, body: &[u8]) -> (TopologyIndexReceipt, SelectedManifest) {
    let body = body.to_vec();
    (
        topology_receipt(&"ab".repeat(16), generation, &"cd".repeat(32), &body),
        SelectedManifest {
            content_sha256: hex_sha256(&body),
            body,
        },
    )
}

#[test]
fn selected_authority_needs_its_receipt_and_generation() {
    assert_eq!(
        authenticated_v3_membership_authority(None, None, None).unwrap(),
        None
    );
    let (receipt, manifest) = selected(3, b"manifest");
    let authority =
        authenticated_v3_membership_authority(Some(receipt), Some(manifest), Some(Some(3)))
            .unwrap()
            .unwrap();
    assert_eq!(authority.topology_generation, 3);
    assert_eq!(authority.manifest_sha256, hex_sha256(b"manifest"));
    let (receipt, manifest) = selected(3, b"manifest");
    assert!(
        authenticated_v3_membership_authority(Some(receipt), Some(manifest), Some(Some(4)))
            .is_err()
    );
    let (receipt, _) = selected(3, b"manifest");
    assert!(authenticated_v3_membership_authority(Some(receipt), None, Some(Some(3))).is_err());
}

#[test]
fn selected_authority_reads_the_generation_record() {
    let read = |record: Option<&str>| {
        let (receipt, manifest) = selected(3, b"manifest");
        selected_membership_authority(
            Some(receipt),
            Some(manifest),
            record.map(|text| text.as_bytes().to_vec()),
        )
    };
    let authority = read(Some("{\"schema\":1,\"topology_generation\":3}"))
        .unwrap()
        .unwrap();
    assert_eq!(authority.topology_generation, 3);
    assert_eq!(authority.manifest_sha256, hex_sha256(b"manifest"));
    assert_eq!(
        read(None).unwrap_err().message(),
        "selected topology generation authority is absent"
    );
    for record in [
        "{}",
        "[3]",
        "{\"topology_generation\":-3}",
        "{\"topology_generation\":\"3\"}",
        "{\"topology_generation\":3.0}",
    ] {
        assert_eq!(
            read(Some(record)).unwrap_err().message(),
            "selected topology generation is missing"
        );
    }
    assert_eq!(
        read(Some("{\"topology_generation\":4}")).unwrap_err().message(),
        "selected UUID membership receipt does not authenticate its manifest"
    );
    let malformed = read(Some("{\"topology_generation\":3")).unwrap_err();
    assert!(malformed.message().contains("EOF"), "{}", malformed.message());
    let (receipt, _) = selected(3, b"manifest");
    assert_eq!(
        selected_membership_authority(Some(receipt), None, Some(vec![b'{']))
            .unwrap_err()
            .message(),
        "selected UUID membership facet has incomplete authority residue"
    );
    assert_eq!(selected_membership_authority(None, None, None).unwrap(), None);
}

#[test]
fn topology_paths_and_containers() {
    assert!(canonical_node_topology_inventory_path("topology/nodes.parquet"));
    assert!(canonical_node_topology_inventory_path("topology/nodes/a.parquet"));
    assert!(!canonical_node_topology_inventory_path("topology/nodes/a/b.parquet"));
    assert!(!canonical_node_topology_inventory_path("topology/edges/R.parquet"));
    let path = |parts: &[&str]| parts.iter().map(|part| part.to_string()).collect::<Vec<_>>();
    assert_eq!(
        container_of(&path(&["data", "generations", "1", "graph"])),
        Some(1)
    );
    assert_eq!(container_of(&path(&["data", "graph"])), None);
    check_selected_graph("/a", "/a").unwrap();
    assert!(check_selected_graph("/a", "/b").is_err());
}

fn store(objects: Vec<ObjectBucket>) -> ProjectStore {
    let manifest = b"generation".to_vec();
    let digest = hex_sha256(&manifest);
    let manifest_sha256 = (0..32)
        .map(|at| u8::from_str_radix(&digest[2 * at..2 * at + 2], 16).unwrap())
        .collect();
    ProjectStore {
        generation_uuid: 5,
        manifest: Some(manifest),
        manifest_sha256,
        participants: vec![Some(12), Some(0)],
        objects,
    }
}

fn bucket(digest: &str, contents: &[u8]) -> ObjectBucket {
    ObjectBucket {
        name: Some(digest[..2].to_owned()),
        directory: true,
        entries: vec![ObjectEntry {
            name: Some(digest[2..].to_owned()),
            file: true,
            length: contents.len() as u64,
            contents: Some(contents.to_vec()),
        }],
    }
}

#[test]
fn empty_project_verifies_clean() {
    let report = verify_project_store(&store(vec![])).unwrap();
    assert!(report.ok);
    assert_eq!(report.contract, "graphforge-verify/1");
    assert_eq!(report.catalog_and_participants.objects_checked, 3);
    assert_eq!(report.catalog_and_participants.bytes_read, 22);
    assert_eq!(report.content_addressed_objects.objects_checked, 0);
    assert_eq!(report.content_addressed_objects.objects_failed, 0);
}

#[test]
fn detects_a_bit_flip_in_a_retained_content_addressed_object() {
    let payload = b"verify-fixture-payload";
    let digest = hex_sha256(payload);
    let clean = verify_project_store(&store(vec![bucket(&digest, payload)])).unwrap();
    assert!(clean.ok);
    assert_eq!(clean.content_addressed_objects.objects_checked, 1);
    assert_eq!(clean.content_addressed_objects.objects_failed, 0);

    let mut mutated = payload.to_vec();
    mutated[0] ^= 0xFF;
    let damaged = store(vec![bucket(&digest, &mutated)]);
    let dirty = verify_project_store(&damaged).unwrap();
    assert!(!dirty.ok);
    assert_eq!(dirty.content_addressed_objects.objects_checked, 1);
    assert_eq!(dirty.content_addressed_objects.objects_failed, 1);
    let rechecked = verify_project_store(&damaged).unwrap();
    assert_eq!(rechecked, dirty);
}

#[test]
fn stores_with_names_that_are_not_text_are_refused() {
    let mut unnamed = bucket(&hex_sha256(b"a"), b"a");
    unnamed.name = None;
    assert!(verify_project_store(&store(vec![unnamed])).is_err());
    let mut other = bucket(&hex_sha256(b"a"), b"a");
    other.name = Some("ZZ".to_owned());
    let report = verify_project_store(&store(vec![other])).unwrap();
    assert_eq!(report.content_addressed_objects.objects_checked, 0);
    for name in ["short", &"0A".repeat(31), &"g".repeat(62)] {
        let mut stray = bucket(&hex_sha256(b"a"), b"a");
        stray.entries[0].name = Some(name.to_owned());
        let error = verify_project_store(&store(vec![stray])).unwrap_err();
        assert_eq!(error.message(), "graph object name is not canonical");
        assert_eq!(error.code(), "GF_VALIDATION");
    }
    let mut nested = bucket(&hex_sha256(b"a"), b"a");
    nested.entries[0].file = false;
    nested.entries[0].name = Some("short".to_owned());
    let report = verify_project_store(&store(vec![nested])).unwrap();
    assert_eq!(report.content_addressed_objects.objects_checked, 0);
    let mut missing = store(vec![]);
    missing.manifest = None;
    let report = verify_project_store(&missing).unwrap();
    assert!(!report.ok);
    assert_eq!(report.catalog_and_participants.objects_failed, 1);
    let mut full = VerifyCategoryCounts::none();
    full.objects_checked = u64::MAX;
    assert_eq!(
        full.record(1, true).unwrap_err().message(),
        "verify counter overflow"
    );
    assert!(is_canonical_hex_segment("0a", 2));
    assert!(!is_canonical_hex_segment("0A", 2));
}

#[test]
fn digests_are_those_of_the_published_vectors() {
    assert_eq!(
        hex_sha256(b""),
        "e3b0c44298fc1c149afbf4c8996fb92427ae41e4649b934ca495991b7852b855"
    );
    assert_eq!(
        hex_sha256(b"abc"),
        "ba7816bf8f01cfea414140de5dae2223b00361a396177a9cb410ff61f20015ad"
    );
    assert_eq!(encode_hex(&[0, 255, 16]), "00ff10");
    assert_eq!(decimal(18_446_744_073_709_551_615), "18446744073709551615");
}
