//! Snapshots of an index: opening, revalidating, advancing and referring.
use graphforge_storage::construction_stream::{
    pin_uuid_construction_snapshot, ConstructionUuidIdentity,
};
use graphforge_storage::digest::hex_sha256;
use graphforge_storage::external_sort::UuidIndexBuildLimits;
use graphforge_storage::membership::UuidMembershipIndex;
use graphforge_storage::probing::UuidIndexKind;
use graphforge_storage::rebuild::{rebuild_uuid_membership_indexes, EdgeRow, NodeRow};
use graphforge_storage::receipts::INDEX_DIR;
use graphforge_storage::records::ForwardRecord;
use graphforge_storage::references::HeldRun;
use graphforge_storage::snapshot::{
    AuthenticatedUuidIndexSnapshot, FileHandle, FileIdentity, IndexSight, InventoryEntry,
    NamedFile, SeenFile, SeenObject,
};
use graphforge_storage::topology_delta::{plan_uuid_membership_delta, IdentityDelta};

const MANIFEST: &str = "membership.json";

const WIDE: UuidIndexBuildLimits = UuidIndexBuildLimits {
    scan_batch_rows: 8192,
    run_records: 65_536,
    merge_fan_in: 16,
};

fn identity(file_id: u128) -> FileIdentity {
    FileIdentity { volume: 1, file_id }
}

fn seen(file_id: u128, bytes: &[u8]) -> SeenFile {
    SeenFile {
        identity: identity(file_id),
        links: 1,
        links_safe: true,
        bytes: bytes.to_vec(),
    }
}

fn encoded(index: &UuidMembershipIndex) -> Vec<u8> {
    format!("{:?}", index.manifest()).into_bytes()
}

/// What an observer of an installed index sees.
fn sight_of(index: &UuidMembershipIndex, manifest_id: u128) -> IndexSight {
    let mut files = Vec::new();
    for (at, run) in index.runs.iter().enumerate() {
        let base = 1000 + 2 * at as u128;
        files.push(NamedFile {
            name: run.descriptor.identities.name.clone(),
            file: seen(base, &run.identities),
        });
        files.push(NamedFile {
            name: run.descriptor.node_surrogates.name.clone(),
            file: seen(base + 1, &run.node_surrogates),
        });
    }
    IndexSight {
        graph_root: identity(1),
        root: identity(2),
        manifest_name: MANIFEST.to_owned(),
        manifest: Some(seen(manifest_id, &encoded(index))),
        parsed: Some(index.manifest()),
        held_manifest: FileHandle {
            identity: identity(manifest_id),
            links: 1,
        },
        files,
        objects: vec![],
    }
}

fn fixture() -> (Vec<u128>, Vec<u128>, UuidMembershipIndex) {
    let nodes = vec![3_u128, 1, 2];
    let edges = vec![12_u128, 11];
    let rows: Vec<NodeRow> = nodes
        .iter()
        .zip(1_u64..)
        .map(|(uuid, id)| NodeRow {
            row: id - 1,
            uuid: Some(*uuid),
            node_id: Some(id),
        })
        .collect();
    let links: Vec<EdgeRow> = edges
        .iter()
        .map(|uuid| EdgeRow {
            row: 0,
            uuid: Some(*uuid),
        })
        .collect();
    let built = rebuild_uuid_membership_indexes(0, &rows, &links, WIDE).unwrap();
    (nodes, edges, built.index)
}

fn delta(nodes: &[(u128, u64)], edges: &[u128]) -> IdentityDelta {
    IdentityDelta {
        nodes: nodes
            .iter()
            .map(|(uuid, node_id)| ForwardRecord {
                uuid: *uuid,
                node_id: *node_id,
            })
            .collect(),
        edges: edges.to_vec(),
        deleted_nodes: vec![],
        deleted_edges: vec![],
    }
}

fn two_generations() -> UuidMembershipIndex {
    let first =
        plan_uuid_membership_delta(0, 1, None, (0, 0), &delta(&[(1, 1), (2, 2)], &[100])).unwrap();
    plan_uuid_membership_delta(1, 2, Some(first.index), (0, 0), &delta(&[(3, 3)], &[101]))
        .unwrap()
        .index
}

fn held(index: &UuidMembershipIndex) -> Vec<HeldRun> {
    index
        .runs
        .iter()
        .enumerate()
        .map(|(at, run)| {
            let base = 1000 + 2 * at as u128;
            HeldRun {
                identities: seen(base, &run.identities),
                node_surrogates: seen(base + 1, &run.node_surrogates),
            }
        })
        .collect()
}

#[test]
fn construction_snapshot_streams_live_uuid_authority_in_order() {
    let (nodes, edges, index) = fixture();
    let sight = sight_of(&index, 10);
    let mut snapshot = pin_uuid_construction_snapshot(&sight, 0).unwrap();
    let (streamed, work) = snapshot.stream_authenticated(&sight, &sight).unwrap();

    let mut expected = nodes
        .iter()
        .copied()
        .zip(1_u64..)
        .map(|(uuid, surrogate)| ConstructionUuidIdentity {
            uuid,
            kind: UuidIndexKind::Node,
            surrogate,
        })
        .chain(edges.iter().copied().map(|uuid| ConstructionUuidIdentity {
            uuid,
            kind: UuidIndexKind::Edge,
            surrogate: 0,
        }))
        .collect::<Vec<_>>();
    expected.sort_by_key(|identity| identity.uuid);
    assert_eq!(streamed, expected);
    assert_eq!(work.live_nodes, nodes.len() as u64);
    assert_eq!(work.live_edges, edges.len() as u64);
    assert_eq!(work.max_node_surrogate, nodes.len() as u64);
    assert!(work.authentication_bytes > 0);
    assert!(work.authentication_blocks > 0);
    snapshot.revalidate(&sight).unwrap();
}

#[test]
fn construction_streams_refuse_runs_that_change() {
    let (_, _, index) = fixture();
    let sight = sight_of(&index, 10);
    let mut snapshot = pin_uuid_construction_snapshot(&sight, 0).unwrap();
    let mut tampered = sight_of(&index, 10);
    tampered.files[0].file.identity = identity(77);
    assert!(snapshot.stream_authenticated(&sight, &tampered).is_err());
    assert!(pin_uuid_construction_snapshot(&sight, 1).is_err());
}

#[test]
fn construction_streams_report_what_they_meet_first() {
    let (_, _, index) = fixture();
    let stream = |change: &dyn Fn(&str, &mut Vec<u8>)| {
        let sight = sight_of(&index, 10);
        let mut snapshot = pin_uuid_construction_snapshot(&sight, 0).unwrap();
        let mut changed = sight_of(&index, 10);
        for file in &mut changed.files {
            change(&file.name, &mut file.file.bytes);
        }
        let error = snapshot.stream_authenticated(&changed, &changed).unwrap_err();
        assert!(!snapshot.payload_consumed);
        error.message()
    };
    let identities = |name: &str| name.starts_with("identities-");
    assert_eq!(
        stream(&|name, bytes| {
            if identities(name) {
                bytes[3] ^= 1;
            }
        }),
        "construction UUID block digest changed"
    );
    assert_eq!(
        stream(&|name, bytes| {
            if identities(name) {
                bytes.pop();
            }
        }),
        "failed to fill whole buffer"
    );
    // The surrogates are read before the identities.
    assert_eq!(
        stream(&|name, bytes| {
            if identities(name) {
                bytes[3] ^= 1;
            } else {
                bytes.pop();
            }
        }),
        "failed to fill whole buffer"
    );
    assert_eq!(
        stream(&|name, bytes| {
            if identities(name) {
                bytes.pop();
            } else {
                bytes[3] ^= 1;
            }
        }),
        "construction UUID block digest changed"
    );
}

#[test]
fn owned_manifest_suspension_restores_exact_authority_and_rejects_tampering() {
    let (_, _, index) = fixture();
    let sight = sight_of(&index, 10);
    let mut snapshot =
        AuthenticatedUuidIndexSnapshot::open_at_generation("/graph", &sight, 0).unwrap();
    let pinned = snapshot.manifest_identity;
    snapshot.suspend_owned_manifest();
    assert!(snapshot.revalidate(&sight).is_err());
    snapshot.restore_owned_manifest(&sight).unwrap();
    assert_eq!(snapshot.manifest_identity, pinned);
    snapshot.revalidate(&sight).unwrap();
    snapshot.suspend_owned_manifest();
    let mut longer = sight_of(&index, 10);
    let mut body = encoded(&index);
    body.push(b'\n');
    longer.manifest = Some(seen(10, &body));
    assert!(snapshot.restore_owned_manifest(&longer).is_err());
    assert!(!snapshot.manifest_held);
    snapshot.restore_owned_manifest(&sight).unwrap();
    snapshot.suspend_owned_manifest();
    let replaced = sight_of(&index, 11);
    assert!(snapshot.restore_owned_manifest(&replaced).is_err());
}

#[test]
fn retained_snapshot_rehashes_manifest_and_authenticates_only_candidate_blocks() {
    let nodes: Vec<(u128, u64)> = (1_u64..=40_000)
        .map(|value| (u128::from(value), value))
        .collect();
    let mut index = plan_uuid_membership_delta(0, 1, None, (0, 0), &delta(&nodes, &[]))
        .unwrap()
        .index;
    let sight = sight_of(&index, 10);
    let snapshot =
        AuthenticatedUuidIndexSnapshot::open_at_generation("/graph", &sight, 1).unwrap();
    let mut longer = sight_of(&index, 10);
    let mut body = encoded(&index);
    body.push(b'\n');
    longer.manifest = Some(seen(10, &body));
    assert!(snapshot
        .revalidate(&longer)
        .unwrap_err()
        .message()
        .contains("manifest authentication"));
    let damaged = index
        .runs
        .iter()
        .position(|run| run.descriptor.identities.count > 0)
        .unwrap();
    index.runs[damaged].identities[0] = 0xff;
    let error = plan_uuid_membership_delta(1, 2, Some(index), (0, 0), &delta(&nodes[..1], &[]))
        .unwrap_err();
    assert!(
        error.message().contains("block authentication"),
        "{}",
        error.message()
    );
}

#[test]
fn readonly_shared_runs_preserve_uuid_snapshot_authentication() {
    let nodes = [(1_u128, 1_u64), (2, u64::MAX - 1)];
    let rows: Vec<NodeRow> = nodes
        .iter()
        .map(|(uuid, id)| NodeRow {
            row: 0,
            uuid: Some(*uuid),
            node_id: Some(*id),
        })
        .collect();
    let index = rebuild_uuid_membership_indexes(1, &rows, &vec![], WIDE)
        .unwrap()
        .index;
    let shared = |safe: bool| {
        let mut sight = sight_of(&index, 10);
        for file in &mut sight.files {
            file.file.links = 2;
            file.file.links_safe = safe;
        }
        sight
    };
    let shared_held = |safe: bool| {
        let mut runs = held(&index);
        for run in &mut runs {
            run.identities.links = 2;
            run.identities.links_safe = safe;
        }
        runs
    };
    let sight = shared(true);
    let snapshot =
        AuthenticatedUuidIndexSnapshot::open_at_generation("/graph", &sight, 1).unwrap();
    let manifest = index.manifest();
    let record = &manifest.runs[0].identities;
    snapshot.revalidate(&sight).unwrap();
    snapshot.open_retained_file(&shared_held(true), record).unwrap();
    let (values, _) = snapshot
        .index
        .lookup_node_surrogates(&[nodes[0].0, nodes[1].0])
        .unwrap();
    assert_eq!(values, [Some(1), Some(u64::MAX - 1)]);

    assert!(snapshot.revalidate(&shared(false)).is_err());
    assert!(snapshot
        .open_retained_file(&shared_held(false), record)
        .is_err());

    let mut tampered = shared(true);
    tampered.files[0].file.bytes[0] = 0xff;
    snapshot.revalidate(&tampered).unwrap();
    assert!(AuthenticatedUuidIndexSnapshot::open_at_generation("/graph", &tampered, 1).is_err());
    let mut damaged = AuthenticatedUuidIndexSnapshot::open_at_generation("/graph", &sight, 1)
        .unwrap()
        .index;
    damaged.runs[0].identities[0] = 0xff;
    let error = damaged.lookup_node_surrogates(&[nodes[0].0]).unwrap_err();
    assert!(error.message().contains("block authentication"));

    let mut replaced = shared(true);
    replaced.files[0].file.identity = identity(4);
    assert!(snapshot.revalidate(&replaced).is_err());

    let mut linked = shared(true);
    linked.held_manifest.links = 2;
    if let Some(file) = &mut linked.manifest {
        file.links = 2;
    }
    assert!(snapshot.revalidate(&linked).is_err());
}

fn compact() -> (UuidMembershipIndex, Vec<InventoryEntry>, IndexSight) {
    let index = two_generations();
    let mut sight = sight_of(&index, 10);
    let mut inventory = Vec::new();
    let mut objects = Vec::new();
    let mut store = |name: String, bytes: &[u8], file_id: u128| {
        let digest = hex_sha256(bytes);
        inventory.push(InventoryEntry {
            relative_path: name,
            content_sha256: digest.clone(),
            byte_length: bytes.len() as u64,
        });
        objects.push(SeenObject {
            path: format!("objects/{digest}"),
            sha256: digest,
            length: bytes.len() as u64,
            file: seen(file_id, bytes),
        });
    };
    store(format!("{INDEX_DIR}/{MANIFEST}"), &encoded(&index), 10);
    for (at, run) in index.runs.iter().enumerate() {
        let base = 1000 + 2 * at as u128;
        let names = &run.descriptor;
        store(
            format!("{INDEX_DIR}/{}", names.identities.name),
            &run.identities,
            base,
        );
        store(
            format!("{INDEX_DIR}/{}", names.node_surrogates.name),
            &run.node_surrogates,
            base + 1,
        );
    }
    sight.objects = objects;
    sight.files = vec![];
    (index, inventory, sight)
}

#[test]
fn compact_retained_reference_authentication_is_batched_and_linear() {
    let (index, inventory, sight) = compact();
    let snapshot = AuthenticatedUuidIndexSnapshot::open_from_compact_inventory(
        "/container",
        &inventory,
        &sight,
        2,
    )
    .unwrap();
    let manifest = snapshot.index.manifest();
    // Files with equal contents are one object.
    let mut runs = held(&index);
    for (at, files) in snapshot.files.iter().enumerate() {
        runs[at].identities.identity = files.identities;
        runs[at].node_surrogates.identity = files.node_surrogates;
    }
    let retained: Vec<_> = manifest
        .runs
        .iter()
        .flat_map(|run| [&run.identities, &run.node_surrogates])
        .map(|record| snapshot.retained_reference(&runs, record).unwrap())
        .collect();
    assert!(retained.len() > 2);
    let payload: u64 = retained.iter().map(|reference| reference.bytes).sum();
    let work = snapshot
        .authenticate_construction_references(&sight, &runs, &retained, &sight)
        .unwrap();
    assert_eq!(work.referenced_payload_bytes, payload);
    assert!(work.global_revalidation_bytes > 0);
    assert_eq!(work.global_revalidation_bytes % 2, 0);

    let victim = manifest
        .runs
        .iter()
        .position(|run| run.identities.count > 0)
        .unwrap();
    let length = runs[victim].identities.bytes.len();
    let original = std::mem::replace(&mut runs[victim].identities.bytes, vec![0; length]);
    assert!(snapshot
        .authenticate_construction_references(&sight, &runs, &retained, &sight)
        .is_err());
    runs[victim].identities.bytes = original;
    snapshot
        .authenticate_construction_references(&sight, &runs, &retained, &sight)
        .unwrap();
    let mut moved = snapshot.retained_reference(&runs, &manifest.runs[0].identities).unwrap();
    moved.source_root = "/elsewhere".to_owned();
    assert_eq!(
        snapshot
            .authenticate_construction_reference_once(&runs, &moved)
            .unwrap_err()
            .message(),
        "retained construction reference authority changed"
    );
}

#[test]
fn compact_inventories_must_hold_what_the_index_names() {
    let (_, mut inventory, sight) = compact();
    let open = |inventory: &Vec<InventoryEntry>, sight: &IndexSight, generation: u64| {
        AuthenticatedUuidIndexSnapshot::open_from_compact_inventory(
            "/container",
            inventory,
            sight,
            generation,
        )
    };
    assert!(open(&inventory, &sight, 2).is_ok());
    assert!(open(&inventory, &sight, 3).is_err());
    let last = inventory.pop();
    assert!(last.is_some());
    assert!(open(&inventory, &sight, 2).is_err());
}

#[test]
fn advancing_keeps_what_the_new_manifest_retains() {
    let first = plan_uuid_membership_delta(0, 1, None, (0, 0), &delta(&[(1, 1)], &[])).unwrap();
    let sight = sight_of(&first.index, 10);
    let mut snapshot =
        AuthenticatedUuidIndexSnapshot::open_at_generation("/graph", &sight, 1).unwrap();
    assert!(snapshot.take_authentication_work().0 > 0);
    assert_eq!(snapshot.take_authentication_work(), (0, 0));
    let second =
        plan_uuid_membership_delta(1, 2, Some(first.index), (0, 0), &delta(&[(2, 2)], &[]))
            .unwrap();
    let later = sight_of(&second.index, 20);
    let other = b"another plan".to_vec();
    let manifest = second.index.manifest();
    assert_eq!(
        snapshot
            .advance_to(&manifest, &other, &later)
            .unwrap_err()
            .message(),
        "committed UUID manifest differs from plan"
    );
    assert_eq!(snapshot.topology_generation(), 1);
    let bytes = snapshot
        .advance_to(&manifest, &encoded(&second.index), &later)
        .unwrap();
    assert!(bytes > 0);
    assert_eq!(snapshot.topology_generation(), 2);
    assert_eq!(snapshot.manifest_identity, identity(20));
    assert_eq!(snapshot.manifest_sha256(), hex_sha256(&encoded(&second.index)));
    assert_eq!(snapshot.count(UuidIndexKind::Node), 2);
    assert_eq!(
        snapshot.index.lookup_node_surrogates(&[1, 2]).unwrap().0,
        [Some(1), Some(2)]
    );
    snapshot.revalidate(&later).unwrap();
}
