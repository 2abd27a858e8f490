//! Building, extending and probing membership indexes.
use graphforge_storage::construction::{
    encode_construction_delta, encode_construction_index, merge_construction_records,
    ConstructionRecoveryIntent,
};
use graphforge_storage::digest::hex_sha256;
use graphforge_storage::error::GfError;
use graphforge_storage::external_sort::UuidIndexBuildLimits;
use graphforge_storage::identity_codec::{Identity, EDGE_WIDTH, WIDTH};
use graphforge_storage::index_format::{
    authenticate_file, describe_blocks, FileRecord, Manifest, FORMAT_VERSION,
    IDENTITY_RECORD_BYTES,
};
use graphforge_storage::maintenance::{
    is_canonical_run_name, maintain_uuid_membership_orphans, AuthenticatedV3MembershipAuthority,
    IndexEntry, OrdinalReferences,
};
use graphforge_storage::membership::{manifest_file_names, UuidMembershipIndex};
use graphforge_storage::migration::{
    manifest_generation, migrate_uuid_membership_indexes, migration_receipt, Topology,
};
use graphforge_storage::probing::{RunContents, UuidIndexKind};
use graphforge_storage::rebuild::{rebuild_uuid_membership_indexes, EdgeRow, NodeRow};
use graphforge_storage::records::{read_exact_record, ForwardRecord, NodeSurrogate};
use graphforge_storage::runs::{describe_run, validate_run_descriptors};
use graphforge_storage::topology_delta::{
    plan_uuid_membership_delta, prepare_uuid_membership_delta, topology_delta_sha256,
    IdentityDelta, PlannedDelta,
};

const WIDE: UuidIndexBuildLimits = UuidIndexBuildLimits {
    scan_batch_rows: 8192,
    run_records: 65_536,
    merge_fan_in: 16,
};

const NARROW: UuidIndexBuildLimits = UuidIndexBuildLimits {
    scan_batch_rows: 1,
    run_records: 1,
    merge_fan_in: 2,
};

fn node_rows(nodes: &[(u128, u64)]) -> Vec<NodeRow> {
    nodes
        .iter()
        .enumerate()
        .map(|(row, (uuid, node_id))| NodeRow {
            row: row as u64,
            uuid: Some(*uuid),
            node_id: Some(*node_id),
        })
        .collect()
}

fn edge_rows(edges: &[u128]) -> Vec<EdgeRow> {
    edges
        .iter()
        .enumerate()
        .map(|(row, uuid)| EdgeRow {
            row: row as u64,
            uuid: Some(*uuid),
        })
        .collect()
}

/// Three nodes with surrogates in row order, and two edges.
fn fixture() -> (Vec<u128>, Vec<u128>, Vec<NodeRow>, Vec<EdgeRow>) {
    let nodes = vec![3_u128, 1, 2];
    let edges = vec![12_u128, 11];
    let mapped: Vec<(u128, u64)> = nodes.iter().copied().zip(1_u64..).collect();
    let rows = node_rows(&mapped);
    let links = edge_rows(&edges);
    (nodes, edges, rows, links)
}

fn forward(nodes: &[(u128, u64)]) -> Vec<ForwardRecord> {
    nodes
        .iter()
        .map(|(uuid, node_id)| ForwardRecord {
            uuid: *uuid,
            node_id: *node_id,
        })
        .collect()
}

fn delta(
    nodes: &[(u128, u64)],
    edges: &[u128],
    deleted_nodes: &[(u128, u64)],
    deleted_edges: &[u128],
) -> IdentityDelta {
    IdentityDelta {
        nodes: forward(nodes),
        edges: edges.to_vec(),
        deleted_nodes: forward(deleted_nodes),
        deleted_edges: deleted_edges.to_vec(),
    }
}

/// Append a delta to an index, as the generation after its own.
fn append(index: UuidMembershipIndex, change: &IdentityDelta) -> Result<PlannedDelta, GfError> {
    let current = index.topology_generation();
    plan_uuid_membership_delta(current, current + 1, Some(index), (0, 0), change)
}

fn contents(index: &UuidMembershipIndex) -> Vec<RunContents> {
    index
        .runs
        .iter()
        .map(|run| RunContents {
            identities: run.identities.clone(),
            node_surrogates: run.node_surrogates.clone(),
        })
        .collect()
}

/// Write an index out and open what was written.
fn reopen(index: &UuidMembershipIndex) -> UuidMembershipIndex {
    UuidMembershipIndex::open(
        &index.manifest(),
        index.topology_generation(),
        contents(index),
    )
    .unwrap()
}

fn sequence(first: u64, last: u64) -> Vec<(u128, u64)> {
    (first..=last).map(|value| (u128::from(value), value)).collect()
}

#[test]
fn bounded_build_reopens_and_probes_in_caller_order() {
    let (nodes, _, rows, links) = fixture();
    let built = rebuild_uuid_membership_indexes(0, &rows, &links, NARROW).unwrap();
    assert_eq!((built.metrics.node_count, built.metrics.edge_count), (3, 2));
    assert_eq!(built.metrics.peak_buffered_records, 1);
    let index = reopen(&built.index);
    let missing = 99_u128;
    let (found, probe) = index
        .probe(UuidIndexKind::Node, &[nodes[1], missing, nodes[1]])
        .unwrap();
    assert_eq!(found, vec![true, false, true]);
    let (surrogates, lookup) = index
        .lookup_node_surrogates(&[nodes[1], missing, nodes[0]])
        .unwrap();
    assert_eq!(surrogates, vec![Some(2), None, Some(1)]);
    assert_eq!(lookup.found, 2);
    assert_eq!(probe.per_record_seeks, 0);
    assert_eq!(lookup.per_record_seeks, 0);
    assert_eq!(lookup.surrogate_blocks_read, 1);
    assert_eq!(
        (probe.requested, probe.unique_requested, probe.found),
        (3, 2, 1)
    );
}

#[test]
fn probe_work_is_fence_selected_block_merge_not_per_record_seeks() {
    let nodes: Vec<u128> = (1..=8_192).collect();
    let mapped: Vec<(u128, u64)> = nodes.iter().copied().zip(1_u64..).collect();
    let built =
        rebuild_uuid_membership_indexes(0, &node_rows(&mapped), &vec![], WIDE).unwrap();
    let index = reopen(&built.index);
    let (found, metrics) = index
        .probe(UuidIndexKind::Node, &[nodes[4_095], 9_000])
        .unwrap();
    assert_eq!(found, [true, false]);
    assert_eq!(metrics.unique_requested, 2);
    assert_eq!(metrics.per_record_seeks, 0);
    assert_eq!(metrics.identity_blocks_read, 1);
    assert_eq!(metrics.file_seeks, metrics.identity_blocks_read);
    assert_eq!(metrics.identity_bytes_read, 8_192 * IDENTITY_RECORD_BYTES);
}

#[test]
fn batch_lookup_restores_duplicates_and_applies_newest_tombstones() {
    let retained = sequence(1, 40_000);
    let first = append(UuidMembershipIndex::empty(), &delta(&retained, &[], &[], &[])).unwrap();
    let second = append(first.index, &delta(&[], &[], &[retained[19_999]], &[])).unwrap();

    let present = retained[39_999].0;
    let deleted = retained[19_999].0;
    let missing = 50_000_u128;
    let index = reopen(&second.index);
    let (resolved, metrics) = index
        .lookup_node_surrogates(&[present, deleted, present, missing])
        .unwrap();
    assert_eq!(resolved, [Some(40_000), None, Some(40_000), None]);
    assert_eq!(
        (metrics.requested, metrics.unique_requested, metrics.found),
        (4, 3, 1)
    );
    assert_eq!(metrics.per_record_seeks, 0);
    assert!(metrics.identity_blocks_read <= 3);
    assert_eq!(metrics.surrogate_blocks_read, 1);
    assert_eq!(metrics.file_seeks, metrics.identity_blocks_read + 1);
}

#[test]
fn corrupt_data_fails_closed_without_replacing_manifest() {
    let (_, _, rows, links) = fixture();
    let built = rebuild_uuid_membership_indexes(0, &rows, &links, WIDE).unwrap();
    let manifest = built.index.manifest();
    let mut files = contents(&built.index);
    files[0].identities[0] = 0xff;
    assert!(UuidMembershipIndex::open(&manifest, 0, files)
        .unwrap_err()
        .message()
        .contains("authentication failed"));
    assert!(manifest.same(&built.index.manifest()));
}

#[test]
fn missing_and_stale_manifests_fail_closed() {
    let (_, _, rows, links) = fixture();
    assert_eq!(manifest_generation(&None).unwrap(), None);
    let built = rebuild_uuid_membership_indexes(0, &rows, &links, WIDE).unwrap();
    let installed = Some(built.index.manifest());
    assert_eq!(manifest_generation(&installed).unwrap(), Some(0));
    assert_ne!(manifest_generation(&installed).unwrap(), Some(1));
    assert!(
        UuidMembershipIndex::open(&built.index.manifest(), 1, contents(&built.index))
            .unwrap_err()
            .message()
            .contains("stale index generation")
    );
}

#[test]
fn lookup_lazily_rejects_authenticated_pair_inconsistency() {
    let (nodes, _, rows, links) = fixture();
    let built = rebuild_uuid_membership_indexes(0, &rows, &links, WIDE).unwrap();
    let mut manifest = built.index.manifest();
    let mut files = contents(&built.index);
    files[0].node_surrogates[8..24].copy_from_slice(&999_u128.to_be_bytes());
    let (sha256, blocks, count) =
        describe_blocks::<NodeSurrogate>(&files[0].node_surrogates).unwrap();
    let record = &mut manifest.runs[0].node_surrogates;
    assert_eq!(count, record.count);
    record.sha256 = sha256;
    record.blocks = blocks;
    let index = UuidMembershipIndex::open(&manifest, 0, files).unwrap();
    assert!(index
        .lookup_node_surrogates(&[nodes[0]])
        .unwrap_err()
        .message()
        .contains("pair is inconsistent"));
}

#[test]
fn forced_rebuild_receipt_binds_newly_staged_manifest() {
    let (_, _, nodes, edges) = fixture();
    let topology = Topology {
        generation: 0,
        nodes,
        edges,
    };
    let first = migrate_uuid_membership_indexes(&None, &topology, WIDE, true)
        .unwrap()
        .unwrap();
    let mut stale = first.index.manifest();
    stale.live_node_count = stale.live_node_count.saturating_add(17);
    let stale_digest = hex_sha256(format!("{stale:?}").as_bytes());
    let second = migrate_uuid_membership_indexes(&Some(stale), &topology, WIDE, true)
        .unwrap()
        .unwrap();
    let body = format!("{:?}", second.index.manifest()).into_bytes();
    let receipt = migration_receipt("nonce", 0, &body);
    assert_eq!(receipt.manifest_sha256, hex_sha256(&body));
    assert_ne!(receipt.manifest_sha256, stale_digest);
}

#[test]
fn migration_leaves_a_fresh_index_alone() {
    let (_, _, nodes, edges) = fixture();
    let topology = Topology {
        generation: 4,
        nodes,
        edges,
    };
    let built = migrate_uuid_membership_indexes(&None, &topology, WIDE, false)
        .unwrap()
        .unwrap();
    let fresh = Some(built.index.manifest());
    assert!(migrate_uuid_membership_indexes(&fresh, &topology, WIDE, false)
        .unwrap()
        .is_none());
    assert!(migrate_uuid_membership_indexes(&fresh, &topology, WIDE, true)
        .unwrap()
        .is_some());
}

#[test]
fn duplicate_and_cross_kind_identities_fail_closed() {
    let repeated = 7_u128;
    let duplicate = rebuild_uuid_membership_indexes(
        0,
        &node_rows(&[(repeated, 1), (repeated, 2)]),
        &vec![],
        NARROW,
    )
    .unwrap_err();
    assert!(duplicate.message().contains("duplicate"));

    let cross_kind = rebuild_uuid_membership_indexes(
        0,
        &node_rows(&[(repeated, 1)]),
        &edge_rows(&[repeated]),
        WIDE,
    )
    .unwrap_err();
    assert!(cross_kind.message().contains("both node and edge"));
}

#[test]
fn duplicate_and_zero_node_surrogates_fail_closed_across_bounded_runs() {
    let shared = node_rows(&[(1, 7), (2, 7)]);
    assert!(rebuild_uuid_membership_indexes(0, &shared, &vec![], NARROW)
        .unwrap_err()
        .message()
        .contains("duplicate node surrogate"));
    let zero = node_rows(&[(3, 0)]);
    assert!(rebuild_uuid_membership_indexes(0, &zero, &vec![], NARROW)
        .unwrap_err()
        .message()
        .contains("invalid node surrogate"));
}

#[test]
fn missing_columns_are_named_by_their_row() {
    let mut rows = node_rows(&[(1, 1), (2, 2)]);
    rows[1].uuid = None;
    assert_eq!(
        rebuild_uuid_membership_indexes(0, &rows, &vec![], WIDE)
            .unwrap_err()
            .message(),
        "invalid node_uuid at row 1"
    );
    let mut links = edge_rows(&[9]);
    links[0].uuid = None;
    assert_eq!(
        rebuild_uuid_membership_indexes(0, &vec![], &links, WIDE)
            .unwrap_err()
            .message(),
        "invalid edge_uuid at row 0"
    );
    let broken = UuidIndexBuildLimits {
        scan_batch_rows: 0,
        run_records: 1,
        merge_fan_in: 2,
    };
    assert!(rebuild_uuid_membership_indexes(0, &vec![], &vec![], broken).is_err());
}

#[test]
fn packed_membership_rebuild_reopen_and_tombstone_preserve_full_width_ids() {
    let nodes = [2_u128, u128::MAX - 1, u128::MAX];
    let ids = [u64::from(u32::MAX), u64::from(u32::MAX) + 1, u64::MAX];
    let mapped: Vec<(u128, u64)> = nodes.iter().copied().zip(ids).collect();
    let edge = 1_u128;
    let built =
        rebuild_uuid_membership_indexes(0, &node_rows(&mapped), &edge_rows(&[edge]), NARROW)
            .unwrap();
    let index = reopen(&built.index);
    assert_eq!(
        index.lookup_node_surrogates(&nodes).unwrap().0,
        ids.map(Some)
    );
    assert_eq!(index.probe(UuidIndexKind::Edge, &[edge]).unwrap().0, [true]);
    let planned = append(index, &delta(&[], &[], &[(nodes[2], u64::MAX)], &[])).unwrap();
    let index = reopen(&planned.index);
    assert_eq!(
        index.lookup_node_surrogates(&nodes).unwrap().0,
        [Some(ids[0]), Some(ids[1]), None]
    );
    assert_eq!(index.probe(UuidIndexKind::Edge, &[edge]).unwrap().0, [true]);
}

fn singleton_append_series(batches: u64) -> (UuidMembershipIndex, u64) {
    let mut index = UuidMembershipIndex::empty();
    let mut bytes = 0;
    for generation in 1..=batches {
        let planned = append(
            index,
            &delta(&[(u128::from(generation), generation)], &[], &[], &[]),
        )
        .unwrap();
        assert_eq!(planned.metrics.prior_topology_rows_decoded, 0);
        assert!(planned.metrics.write_blocks >= 2);
        assert_eq!(
            planned.metrics.write_bytes,
            planned.metrics.physical_bytes_written
        );
        bytes += planned.metrics.physical_bytes_written;
        index = planned.index;
    }
    (index, bytes)
}

#[test]
fn v3_leveled_append_has_bounded_runs_and_nonquadratic_doubling() {
    let (_, small) = singleton_append_series(64);
    let (large, large_bytes) = singleton_append_series(128);
    assert!(large_bytes <= small * 5 / 2);
    let manifest: Manifest = large.manifest();
    assert!(manifest.runs.len() <= 9);
    assert_eq!(manifest.runs.iter().filter(|run| run.base).count(), 1);
    let index = reopen(&large);
    assert_eq!(index.count(UuidIndexKind::Node), 128);
    assert_eq!(
        index.lookup_node_surrogates(&[1, 128]).unwrap().0,
        [Some(1), Some(128)]
    );
}

#[test]
fn levels_below_the_last_hold_one_run_each() {
    let (index, _) = singleton_append_series(13);
    let mut levels: Vec<u8> = index
        .manifest()
        .runs
        .iter()
        .filter(|run| !run.base)
        .map(|run| run.level)
        .collect();
    levels.sort_unstable();
    assert_eq!(levels, [0, 2, 3]);
}

#[test]
fn append_rejects_cross_run_uuid_and_surrogate_collisions_before_publication() {
    let start = || {
        append(UuidMembershipIndex::empty(), &delta(&[(1, 1)], &[2], &[], &[]))
            .unwrap()
            .index
    };
    assert!(append(start(), &delta(&[], &[1], &[], &[]))
        .unwrap_err()
        .message()
        .contains("already exists"));
    assert!(append(start(), &delta(&[(3, 1)], &[], &[], &[]))
        .unwrap_err()
        .message()
        .contains("surrogate already exists"));
    let reverse = append(UuidMembershipIndex::empty(), &delta(&[], &[9], &[], &[]))
        .unwrap()
        .index;
    assert!(append(reverse, &delta(&[(9, 9)], &[], &[], &[]))
        .unwrap_err()
        .message()
        .contains("already exists"));
}

#[test]
fn planned_validation_scans_only_the_runs_it_carries() {
    let retained = sequence(1, 40_000);
    let first = append(UuidMembershipIndex::empty(), &delta(&retained, &[], &[], &[])).unwrap();
    let planned = plan_uuid_membership_delta(
        1,
        2,
        Some(first.index),
        (0, 0),
        &delta(&[(50_000, 50_000)], &[], &[], &[]),
    )
    .unwrap();
    assert_eq!(planned.metrics.validation_random_seeks, 0);
    assert_eq!(planned.metrics.validation_scan_bytes, 40_001 * (25 + 24));
    assert_eq!(planned.metrics.validation_scan_blocks, 4);
}

#[test]
fn retained_planner_stages_only_new_and_binary_carry_outputs() {
    let first = prepare_uuid_membership_delta(
        0,
        1,
        false,
        None,
        (0, 0),
        &delta(&sequence(1, 40_000), &[], &[], &[]),
    )
    .unwrap();
    assert_eq!(first.outputs.len(), 4);
    let before = manifest_file_names(&first.index.manifest());
    let second = plan_uuid_membership_delta(
        1,
        2,
        Some(first.index),
        (1_960_000, 3),
        &delta(&sequence(40_001, 80_000), &[], &[], &[]),
    )
    .unwrap();
    assert_eq!(second.outputs.len(), 2);
    assert_eq!(second.superseded.len(), 2);
    let planned = second.index.manifest();
    assert_eq!(planned.runs.iter().filter(|run| !run.base).count(), 1);
    assert_eq!(planned.runs.iter().find(|run| !run.base).unwrap().level, 1);
    assert!(before
        .iter()
        .all(|name| !second.outputs.iter().any(|file| &file.record.name == name)));
    assert!(second.metrics.validation_scan_bytes > 0);
    assert!(
        second.metrics.validation_scan_bytes
            <= second.metrics.snapshot_admission_authentication_bytes * 2
    );
    assert_eq!(second.metrics.validation_random_seeks, 0);
    assert_eq!(second.metrics.prior_topology_rows_decoded, 0);
    assert_eq!(
        second.metrics.snapshot_admission_authentication_bytes,
        1_960_000
    );
    assert!(
        second.metrics.new_output_authentication_bytes <= second.metrics.physical_bytes_written
    );
    let third = plan_uuid_membership_delta(
        2,
        3,
        Some(second.index),
        (0, 0),
        &delta(&[(80_001, 80_001)], &[], &[], &[]),
    )
    .unwrap();
    assert_eq!(third.metrics.snapshot_admission_authentication_bytes, 0);
    assert_eq!(third.metrics.snapshot_admission_authentication_blocks, 0);
    assert_eq!(third.metrics.validation_scan_bytes, 0);
    assert_eq!(third.metrics.validation_scan_blocks, 0);
}

#[test]
fn prepared_deltas_name_the_generation_and_migration_they_miss() {
    let nothing = delta(&[], &[], &[], &[]);
    assert_eq!(
        prepare_uuid_membership_delta(3, 5, true, None, (0, 0), &nothing)
            .unwrap_err()
            .message(),
        "prepared UUID delta generation is not the next generation"
    );
    assert_eq!(
        prepare_uuid_membership_delta(3, 4, false, None, (0, 0), &nothing)
            .unwrap_err()
            .message(),
        "UUID membership index migration is required before topology mutation"
    );
}

#[test]
fn a_planned_delta_is_read_back_over_what_the_prior_index_said() {
    let first = append(
        UuidMembershipIndex::empty(),
        &delta(&[(1, 10), (2, 20)], &[5], &[], &[]),
    )
    .unwrap();
    let second = append(first.index, &delta(&[(3, 30)], &[6], &[(2, 20)], &[5])).unwrap();
    let index = reopen(&second.index);
    assert_eq!(
        index.lookup_node_surrogates(&[1, 2, 3, 4]).unwrap().0,
        [Some(10), None, Some(30), None]
    );
    assert_eq!(
        index.probe(UuidIndexKind::Edge, &[5, 6, 1]).unwrap().0,
        [false, true, false]
    );
    assert_eq!(index.count(UuidIndexKind::Node), 2);
    assert_eq!(index.count(UuidIndexKind::Edge), 1);
}

#[test]
fn packed_identity_write_count_tracks_whole_record_flush_boundaries() {
    let edges: Vec<u128> = (1..=123_361).collect();
    let planned =
        plan_uuid_membership_delta(0, 1, None, (0, 0), &delta(&[], &edges, &[], &[])).unwrap();
    assert_eq!(planned.metrics.write_blocks, 3);
    assert_eq!(planned.metrics.write_bytes, 2_097_137);
    let appended = append(UuidMembershipIndex::empty(), &delta(&[], &edges, &[], &[])).unwrap();
    assert_eq!(appended.metrics.write_blocks, 3);
    assert_eq!(appended.metrics.write_bytes, 2_097_137);
}

#[test]
fn delta_digests_separate_what_they_hold() {
    let nothing = topology_delta_sha256(&delta(&[], &[], &[], &[]));
    let node = topology_delta_sha256(&delta(&[(1, 1)], &[], &[], &[]));
    let deleted = topology_delta_sha256(&delta(&[], &[], &[(1, 1)], &[]));
    assert_eq!(nothing.len(), 64);
    assert_ne!(nothing, node);
    assert_ne!(node, deleted);
    assert_eq!(node, topology_delta_sha256(&delta(&[(1, 1)], &[], &[], &[])));
}

fn orphan(name: &str, links: u64, bytes: u64) -> IndexEntry {
    IndexEntry {
        name: name.to_owned(),
        links,
        bytes,
    }
}

fn authority(generation: u64, body: &[u8]) -> AuthenticatedV3MembershipAuthority {
    AuthenticatedV3MembershipAuthority {
        topology_generation: generation,
        manifest_sha256: hex_sha256(body),
    }
}

fn entries_of(index: &UuidMembershipIndex) -> Vec<IndexEntry> {
    index
        .runs
        .iter()
        .flat_map(|run| {
            [
                orphan(&run.descriptor.identities.name, 1, run.identities.len() as u64),
                orphan(
                    &run.descriptor.node_surrogates.name,
                    1,
                    run.node_surrogates.len() as u64,
                ),
            ]
        })
        .collect()
}

#[test]
fn orphan_maintenance_is_bounded_and_preserves_linked_and_live_runs() {
    let planned =
        append(UuidMembershipIndex::empty(), &delta(&[(1, 1)], &[2], &[], &[])).unwrap();
    let manifest = planned.index.manifest();
    let body = b"manifest".to_vec();
    let selected = authority(1, &body);
    let with_orphans = || {
        let mut entries = entries_of(&planned.index);
        entries.push(orphan("identities-v5-orphan-0000000000000001.uuidx", 1, 42));
        entries.push(orphan(
            "node-surrogates-v5-orphan-0000000000000002.uuidx",
            1,
            42,
        ));
        entries
    };
    assert!(maintain_uuid_membership_orphans(
        &manifest,
        &body,
        None,
        OrdinalReferences::Absent,
        with_orphans(),
        1
    )
    .is_err());
    let (first, removed) = maintain_uuid_membership_orphans(
        &manifest,
        &body,
        Some(&selected),
        OrdinalReferences::Absent,
        with_orphans(),
        1,
    )
    .unwrap();
    assert_eq!(first.candidates, 2);
    assert_eq!(first.removed, 1);
    assert_eq!(first.deferred_limit, 1);
    assert_eq!(removed, ["identities-v5-orphan-0000000000000001.uuidx"]);
    let mut rest = with_orphans();
    rest.retain(|entry| entry.name != removed[0]);
    let (second, removed) = maintain_uuid_membership_orphans(
        &manifest,
        &body,
        Some(&selected),
        OrdinalReferences::Absent,
        rest,
        64,
    )
    .unwrap();
    assert_eq!(second.removed, 1);
    assert_eq!(removed, ["node-surrogates-v5-orphan-0000000000000002.uuidx"]);
    let mut linked = entries_of(&planned.index);
    linked.push(orphan("identities-v5-orphan-0000000000000003.uuidx", 2, 42));
    let (third, removed) = maintain_uuid_membership_orphans(
        &manifest,
        &body,
        Some(&selected),
        OrdinalReferences::Absent,
        linked,
        64,
    )
    .unwrap();
    assert_eq!(third.deferred_linked, 1);
    assert!(removed.is_empty());
}

#[test]
fn orphan_collection_authenticates_and_preserves_union_of_v3_and_v4_facets() {
    let (nodes, edges, rows, links) = fixture();
    let built = rebuild_uuid_membership_indexes(7, &rows, &links, WIDE).unwrap();
    let manifest = built.index.manifest();
    let body = b"manifest".to_vec();
    let chosen = authority(7, &body);
    let selected = vec![
        "forward-v4-7-0000000000000001.uuidx".to_owned(),
        "ordinal-v4-7-0000000000000002.uuidx".to_owned(),
    ];
    let mut entries = entries_of(&built.index);
    for name in &selected {
        entries.push(orphan(name, 1, 24));
    }
    entries.push(orphan("ordinal-v4-7-0000000000000000.uuidx", 1, 6));
    let (work, removed) = maintain_uuid_membership_orphans(
        &manifest,
        &body,
        Some(&chosen),
        OrdinalReferences::Ready(selected),
        entries,
        16,
    )
    .unwrap();
    assert_eq!(work.removed, 1);
    assert_eq!(removed, ["ordinal-v4-7-0000000000000000.uuidx"]);
    let index = reopen(&built.index);
    assert_eq!(index.count(UuidIndexKind::Node), nodes.len() as u64);
    assert_eq!(index.count(UuidIndexKind::Edge), edges.len() as u64);
    assert_eq!(
        index.probe(UuidIndexKind::Edge, &[edges[0]]).unwrap().0,
        vec![true]
    );
    assert!(maintain_uuid_membership_orphans(
        &manifest,
        &body,
        Some(&chosen),
        OrdinalReferences::RebuildRequired,
        vec![],
        16
    )
    .is_err());
    assert!(maintain_uuid_membership_orphans(
        &manifest,
        &body,
        Some(&authority(8, &body)),
        OrdinalReferences::Absent,
        vec![],
        16
    )
    .is_err());
    assert!(maintain_uuid_membership_orphans(
        &manifest,
        &b"replacement".to_vec(),
        Some(&chosen),
        OrdinalReferences::Absent,
        vec![],
        16
    )
    .is_err());
}

#[test]
fn run_names_are_recognised_by_prefix_and_suffix() {
    assert!(is_canonical_run_name("identities-v5-1-00000000000000aB.uuidx"));
    assert!(is_canonical_run_name("node-surrogates-v5-1-0000000000000000.uuidx"));
    assert!(!is_canonical_run_name("ordinal-v4-7-00000000000000aB.uuidx"));
    assert!(!is_canonical_run_name("ordinal-v4-0-0000000000000000.uuidx"));
    assert!(!is_canonical_run_name("identities-v5-1-00.uuidx"));
    assert!(is_canonical_run_name("ordinal-v4-7-0000000000000000.uuidx"));
    assert!(!is_canonical_run_name("nodes-unpublished.uuidx"));
    assert!(!is_canonical_run_name("identities-v5-1-0000000000000000.tmp"));
}

fn construction_row(uuid: u128, kind: u8, surrogate: u64) -> Vec<u8> {
    let mut row = uuid.to_be_bytes().to_vec();
    row.extend_from_slice(&[kind, 0]);
    row.extend_from_slice(&surrogate.to_be_bytes());
    row
}

#[test]
fn packed_construction_index_preserves_full_width_surrogates_and_refuses_invalid_records() {
    let uuid = u128::MAX;
    let surrogate = u64::MAX;
    let golden = construction_row(uuid, 0, surrogate);
    assert_eq!(golden.len(), 26);
    let mut cases = vec![(golden.clone(), true)];
    for length in 1..26 {
        cases.push((golden[..length].to_vec(), false));
    }
    for (offset, value) in [(16, 2), (17, 1), (17, 255)] {
        let mut invalid = golden.clone();
        invalid[offset] = value;
        cases.push((invalid, false));
    }
    let mut zero = golden.clone();
    zero[18..26].fill(0);
    cases.push((zero, false));
    for (bytes, valid) in cases {
        let result =
            encode_construction_index(&bytes, &hex_sha256(&bytes), 1, 0, None, 1, 0, None);
        if valid {
            let encoding = result.unwrap();
            let identity = encoding
                .artifacts
                .iter()
                .find(|file| file.record.count == 1 && file.record.name.starts_with("identities"))
                .unwrap();
            let mut expected = uuid.to_be_bytes().to_vec();
            expected.push(0);
            expected.extend_from_slice(&surrogate.to_be_bytes());
            assert_eq!(expected.len(), 25);
            assert_eq!(identity.bytes, expected);
            let index = reopen(&encoding.index);
            assert_eq!(
                index.lookup_node_surrogates(&[uuid]).unwrap().0,
                vec![Some(surrogate)]
            );
        } else {
            assert!(result.is_err());
        }
    }
}

#[test]
fn construction_digests_must_match_their_input() {
    let row = construction_row(4, 0, 9);
    assert!(encode_construction_index(&row, &hex_sha256(b"other"), 1, 0, None, 1, 0, None).is_err());
    let (left, right) = (construction_row(2, 0, 5), construction_row(3, 1, 0));
    let both = [left.clone(), right.clone()].concat();
    let encoding = encode_construction_index(&both, &hex_sha256(&both), 1, 0, None, 1, 1, None).unwrap();
    let index = reopen(&encoding.index);
    assert_eq!(index.lookup_node_surrogates(&[2, 3]).unwrap().0, [Some(5), None]);
    assert_eq!(index.probe(UuidIndexKind::Edge, &[2, 3]).unwrap().0, [false, true]);
    let swapped = [right, left].concat();
    assert!(encode_construction_delta(&swapped).is_err());
}

#[test]
fn construction_extends_its_parent() {
    let first = construction_row(2, 0, 5);
    let parent = encode_construction_index(&first, &hex_sha256(&first), 1, 0, None, 1, 0, None)
        .unwrap()
        .index;
    let next = construction_row(8, 0, 6);
    let child =
        encode_construction_index(&next, &hex_sha256(&next), 2, 1, Some(parent), 2, 0, None).unwrap();
    let index = reopen(&child.index);
    assert_eq!(
        index.lookup_node_surrogates(&[2, 8, 9]).unwrap().0,
        [Some(5), Some(6), None]
    );
    assert_eq!(index.topology_generation(), 2);
}

#[test]
fn construction_lists_each_new_file_once() {
    let row = construction_row(4, 0, 9);
    let encoding =
        encode_construction_index(&row, &hex_sha256(&row), 1, 0, None, 1, 0, None).unwrap();
    let mut names: Vec<&str> = encoding
        .artifacts
        .iter()
        .map(|file| file.record.name.as_str())
        .collect();
    assert_eq!(names.len(), 4);
    names.dedup();
    assert_eq!(names.len(), 4);
    let written: usize = encoding.artifacts.iter().map(|file| file.bytes.len()).sum();
    assert_eq!(encoding.final_write_bytes, written as u64);
}

#[test]
fn a_construction_stops_at_the_question_that_is_answered_with_no() {
    let row = construction_row(4, 0, 9);
    let encode = |cancelled: Option<u64>| {
        encode_construction_index(&row, &hex_sha256(&row), 1, 0, None, 1, 0, cancelled)
    };
    // One block of the stream, and one look at each of the 64 levels.
    for question in 0..65 {
        assert_eq!(
            encode(Some(question)).unwrap_err().message(),
            "construction index encoding cancelled"
        );
    }
    encode(Some(65)).unwrap();
    let mut faulty = row.clone();
    faulty[17] = 1;
    let digest = hex_sha256(&faulty);
    let encode_faulty = |cancelled: Option<u64>| {
        encode_construction_index(&faulty, &digest, 1, 0, None, 1, 0, cancelled)
            .unwrap_err()
            .message()
    };
    assert_eq!(
        encode_faulty(Some(0)),
        "construction index encoding cancelled"
    );
    assert_eq!(
        encode_faulty(Some(1)),
        "construction identity stream is not canonical"
    );
}

#[test]
fn a_merge_reports_what_it_meets_first() {
    let ids = |first: u64, last: u64| -> (Vec<u8>, FileRecord) {
        let nodes: Vec<NodeSurrogate> = (first..=last)
            .map(|surrogate| NodeSurrogate {
                surrogate,
                uuid: u128::from(surrogate),
            })
            .collect();
        let file = describe_run::<NodeSurrogate>("node-surrogates-v5", 1, &nodes);
        (file.bytes, file.record)
    };
    let merge = |left: &(Vec<u8>, FileRecord), right: &(Vec<u8>, FileRecord)| {
        merge_construction_records::<NodeSurrogate>(
            &left.0, &left.1, &right.0, &right.1, "merged", 2, 24, None,
        )
    };
    let left = ids(1, 3);
    let (merged, rest) = merge(&left, &ids(4, 5)).unwrap();
    assert_eq!(rest, None);
    assert_eq!(merged.record.count, 5);
    assert_eq!(
        merge(&left, &ids(3, 5)).unwrap_err().message(),
        "construction index merge found duplicate key"
    );
    // The damaged file is met before the key that occurs twice.
    let mut damaged = ids(1, 3);
    damaged.0[30] ^= 1;
    assert_eq!(
        merge(&damaged, &ids(3, 5)).unwrap_err().message(),
        "construction merge source block changed"
    );
    let mut moved = ids(1, 3);
    moved.1.blocks[0].offset = 1;
    assert_eq!(
        merge(&moved, &ids(4, 5)).unwrap_err().message(),
        "construction merge block framing changed"
    );
    let mut cut = ids(1, 3);
    cut.0.truncate(40);
    assert_eq!(
        merge(&cut, &ids(4, 5)).unwrap_err().message(),
        "failed to fill whole buffer"
    );
    // A file that is wrong only as a whole is found out at its end, after the
    // key that occurs twice.
    let mut renamed = ids(1, 3);
    renamed.1.sha256 = hex_sha256(b"other");
    assert_eq!(
        merge(&renamed, &ids(2, 5)).unwrap_err().message(),
        "construction index merge found duplicate key"
    );
    assert_eq!(
        merge(&renamed, &ids(4, 5)).unwrap_err().message(),
        "construction merge source authentication failed"
    );
}

#[test]
fn a_merge_asks_for_each_block_that_it_fills() {
    let ids = |first: u64, last: u64| -> (Vec<u8>, FileRecord) {
        let nodes: Vec<NodeSurrogate> = (first..=last)
            .map(|surrogate| NodeSurrogate {
                surrogate,
                uuid: u128::from(surrogate),
            })
            .collect();
        let file = describe_run::<NodeSurrogate>("node-surrogates-v5", 1, &nodes);
        (file.bytes, file.record)
    };
    let merge = |left: &(Vec<u8>, FileRecord),
                 right: &(Vec<u8>, FileRecord),
                 width: usize,
                 cancelled: Option<u64>| {
        merge_construction_records::<NodeSurrogate>(
            &left.0, &left.1, &right.0, &right.1, "merged", 2, width, cancelled,
        )
    };
    let cancelled = "construction index encoding cancelled";
    // A block holds 43690 records.
    let (left, right) = (ids(1, 30_000), ids(30_001, 43_689));
    assert_eq!(merge(&left, &right, 24, Some(0)).unwrap().1, Some(0));
    let right = ids(30_001, 60_000);
    assert_eq!(
        merge(&left, &right, 24, Some(0)).unwrap_err().message(),
        cancelled
    );
    assert_eq!(merge(&left, &right, 24, Some(1)).unwrap().1, Some(0));
    // A block holds one record of the greatest width.
    let (left, right) = (ids(1, 3), ids(4, 5));
    for question in 0..5 {
        assert_eq!(
            merge(&left, &right, 1_048_576, Some(question))
                .unwrap_err()
                .message(),
            cancelled
        );
    }
    assert_eq!(merge(&left, &right, 1_048_576, Some(7)).unwrap().1, Some(2));
    let again = ids(3, 5);
    assert_eq!(
        merge(&left, &again, 1_048_576, Some(1)).unwrap_err().message(),
        cancelled
    );
    assert_eq!(
        merge(&left, &again, 1_048_576, Some(2)).unwrap_err().message(),
        "construction index merge found duplicate key"
    );
}

#[test]
fn recovery_intents_authenticate_what_they_seal() {
    let mut intent = ConstructionRecoveryIntent::sealed(
        3,
        2,
        "identities.run".to_owned(),
        7,
        "00ff".to_owned(),
        26,
        "11".repeat(32),
    );
    intent.authenticate().unwrap();
    intent.source_bytes = 27;
    assert_eq!(
        intent.authenticate().unwrap_err().message(),
        "construction recovery intent authentication failed"
    );
}

#[test]
fn fixed_width_codecs_distinguish_clean_eof_from_partial_tail() {
    let mut clean: &[u8] = &[];
    assert_eq!(
        graphforge_storage::identity_codec::read(&mut clean).unwrap(),
        None
    );
    for length in 1..EDGE_WIDTH {
        let bytes = vec![0_u8; length];
        let mut partial: &[u8] = &bytes;
        assert!(graphforge_storage::identity_codec::read(&mut partial).is_err());
    }
    for length in EDGE_WIDTH..WIDTH {
        let bytes = vec![0_u8; length];
        let mut partial: &[u8] = &bytes;
        assert!(graphforge_storage::identity_codec::read(&mut partial).is_err());
    }
    for length in 1..24 {
        let bytes = vec![0_u8; length];
        let mut partial: &[u8] = &bytes;
        assert!(read_exact_record::<24>(&mut partial).is_err());
        assert!(partial.is_empty());
    }
    let mut empty: &[u8] = &[];
    assert_eq!(read_exact_record::<24>(&mut empty).unwrap(), None);
}

#[test]
fn unified_identity_merge_rejects_cross_kind_uuid() {
    let uuid = u128::from_be_bytes([7; 16]);
    assert_eq!(
        rebuild_uuid_membership_indexes(0, &node_rows(&[(uuid, 1)]), &edge_rows(&[uuid]), WIDE)
            .unwrap_err()
            .message(),
        "UUID occurs in both node and edge identity domains"
    );
}

#[test]
fn files_authenticate_against_their_own_description() {
    let mut bytes = Vec::new();
    for uuid in 1_u128..=3 {
        bytes.extend_from_slice(&uuid.to_be_bytes());
        bytes.push(1);
    }
    let (sha256, blocks, count) = describe_blocks::<Identity>(&bytes).unwrap();
    assert_eq!((count, blocks.len()), (3, 1));
    assert_eq!((blocks[0].first, blocks[0].last), (1, 3));
    let record = FileRecord {
        name: "identities-v5-1-00.uuidx".to_owned(),
        count,
        sha256,
        blocks,
    };
    let read: Vec<Identity> = authenticate_file(&bytes, &record, "failed").unwrap();
    assert_eq!(read.len(), 3);
    bytes[0] = 1;
    let again: Result<Vec<Identity>, GfError> = authenticate_file(&bytes, &record, "failed");
    assert_eq!(again.unwrap_err().message(), "failed");
}

#[test]
fn descriptors_out_of_order_are_refused() {
    let (index, _) = singleton_append_series(5);
    let mut manifest = index.manifest();
    validate_run_descriptors(&manifest).unwrap();
    assert_eq!(manifest.format_version, FORMAT_VERSION);
    manifest.runs.reverse();
    assert_eq!(
        validate_run_descriptors(&manifest).unwrap_err().message(),
        "UUID index run descriptors are invalid"
    );
}
