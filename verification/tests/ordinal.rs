//! Ordinal identity artifacts: building, extending, compacting, publishing.
use graphforge_storage::digest::hex_sha256;
use graphforge_storage::error::GfError;
use graphforge_storage::external_sort::UuidIndexBuildLimits;
use graphforge_storage::ordinal_compaction::{
    compact_v4_binary_carry, compact_v4_binary_carry_with_cancellation,
    compact_v4_ordinal_interval, compact_v4_tombstone_interval, merge_v4_forward_artifacts,
    v4_forward_intervals, V4CompactionWork,
};
use graphforge_storage::ordinal_construction::{
    stage_v4_ordinal_bundle, V4ConstructionArtifactBundle, V4OrdinalConstructionWriter,
};
use graphforge_storage::ordinal_delta::{
    charge_v4_ordinal_delta, prepare_v4_ordinal_delta, PlannedV4OrdinalDelta,
};
use graphforge_storage::ordinal_format::{
    authenticate_private_v4_artifact_file, install_artifact, seal_artifact, Duplicated,
    v4_manifest_artifact_names, V4ArtifactFile, V4OrdinalArtifact, V4OrdinalArtifactKind,
    V4OrdinalBlock, V4OrdinalIdentityManifest, V4OrdinalRange, V4OrdinalTombstones,
    ORDINAL_IDENTITY_V4, V4_ORDINAL_BLOCK_BYTES,
};
use graphforge_storage::ordinal_manifest::{
    admit_v4_construction_manifest, encode_v4_manifest, V4OrdinalBounds,
};
use graphforge_storage::ordinal_publication::{
    merge_construction_v4_delta, publish_v4_construction_artifacts,
};
use graphforge_storage::ordinal_rebuild::{
    rebuild_v4_ordinal_identity, rebuild_v4_ordinal_identity_with_evidence,
    V4OrdinalRebuildDisposition, V4RebuildScratchAccounting,
};
use graphforge_storage::rebuild::NodeRow;
use graphforge_storage::records::{ForwardRecord, NodeSurrogate, NodeTombstone};

const MAX_RANGES: usize = 65_536;

const MAX_MANIFEST_BYTES: u64 = 16_777_216;

const BOUNDS: V4OrdinalBounds = V4OrdinalBounds {
    ranges: MAX_RANGES,
    manifest_bytes: MAX_MANIFEST_BYTES,
};

/// Bounds with fewer ranges.
fn ranges(ranges: usize) -> V4OrdinalBounds {
    V4OrdinalBounds { ranges, ..BOUNDS }
}

const WIDE: UuidIndexBuildLimits = UuidIndexBuildLimits {
    scan_batch_rows: 8192,
    run_records: 65_536,
    merge_fan_in: 16,
};

const NARROW: UuidIndexBuildLimits = UuidIndexBuildLimits {
    scan_batch_rows: 1,
    run_records: 1,
    merge_fan_in: 2,
};

/// Build from pairs in both orders at once, as a stream of new nodes comes.
fn stage(
    pairs: &[(u128, u64)],
    generation: u64,
    cancelled_at: Option<usize>,
) -> Result<V4ConstructionArtifactBundle, GfError> {
    let mut writer = V4OrdinalConstructionWriter::start(generation, BOUNDS)?;
    for (at, (uuid, node_id)) in pairs.iter().enumerate() {
        writer = writer.push_pair(*uuid, *node_id, cancelled_at == Some(at))?;
    }
    writer.finish()
}

fn content<'a>(files: &'a [V4ArtifactFile], name: &str) -> &'a Vec<u8> {
    &files
        .iter()
        .find(|file| file.descriptor.name == name)
        .unwrap()
        .bytes
}

fn forward(nodes: &[(u128, u64)]) -> Vec<ForwardRecord> {
    nodes
        .iter()
        .map(|(uuid, node_id)| ForwardRecord {
            uuid: *uuid,
            node_id: *node_id,
        })
        .collect()
}

fn tombstones(ids: &[u64]) -> Vec<NodeTombstone> {
    ids.iter().map(|id| NodeTombstone { node_id: *id }).collect()
}

fn advance(
    current: u64,
    manifest: &V4OrdinalIdentityManifest,
    pinned: &Vec<V4ArtifactFile>,
    nodes: &[(u128, u64)],
    deleted: &[u64],
) -> Result<PlannedV4OrdinalDelta, GfError> {
    prepare_v4_ordinal_delta(
        current,
        current + 1,
        manifest,
        pinned,
        &forward(nodes),
        &tombstones(deleted),
        &"11".repeat(32),
        WIDE,
        BOUNDS,
    )
}

/// Add a plan's outputs to the installed artifacts.
fn install(pinned: &mut Vec<V4ArtifactFile>, planned: &PlannedV4OrdinalDelta) {
    for file in &planned.outputs {
        pinned.push(V4ArtifactFile {
            descriptor: V4OrdinalArtifact {
                name: file.descriptor.name.clone(),
                kind: file.descriptor.kind,
                generation: file.descriptor.generation,
                bytes: file.descriptor.bytes,
                sha256: file.descriptor.sha256.clone(),
            },
            bytes: file.bytes.clone(),
        });
    }
}

/// Read a node's UUID through ranges and tombstones.
fn lookup(
    manifest: &V4OrdinalIdentityManifest,
    files: &[V4ArtifactFile],
    node_id: u64,
) -> Option<u128> {
    let buried = manifest.tombstones.iter().any(|run| {
        content(files, &run.artifact.name)
            .chunks_exact(8)
            .any(|id| u64::from_be_bytes(id.try_into().unwrap()) == node_id)
    });
    if buried {
        return None;
    }
    for range in &manifest.ordinal_ranges {
        if range.first_node_id <= node_id && node_id - range.first_node_id < range.count {
            let at = 16 * (node_id - range.first_node_id) as usize;
            let bytes = &content(files, &range.artifact.name)[at..at + 16];
            return Some(u128::from_be_bytes(bytes.try_into().unwrap()));
        }
    }
    None
}

#[test]
fn shared_v4_builder_rejects_sparse_manifest_above_reader_bound() {
    let artifact = |name: String| V4OrdinalArtifact {
        name,
        kind: V4OrdinalArtifactKind::OrdinalUuids,
        generation: 1,
        bytes: 16,
        sha256: "00".repeat(32),
    };
    let ranges = (0..MAX_RANGES)
        .map(|ordinal| V4OrdinalRange {
            first_node_id: u64::try_from(ordinal).unwrap() * 2 + 1,
            count: 1,
            artifact: artifact(format!("ordinal-v4-1-{ordinal:016x}.uuidx")),
            blocks: vec![V4OrdinalBlock {
                offset: 0,
                count: 1,
                sha256: "11".repeat(32),
            }],
        })
        .collect::<Vec<_>>();
    let manifest = V4OrdinalIdentityManifest {
        format_version: ORDINAL_IDENTITY_V4,
        topology_generation: 1,
        forward_identities: vec![V4OrdinalArtifact {
            name: "forward-v4-1-0000000000000000.uuidx".to_owned(),
            kind: V4OrdinalArtifactKind::ForwardIdentities,
            generation: 1,
            bytes: 24,
            sha256: "22".repeat(32),
        }],
        ordinal_ranges: ranges,
        tombstones: Vec::new(),
    };
    assert!(encode_v4_manifest(&manifest).len() as u64 > MAX_MANIFEST_BYTES);
    assert_eq!(
        admit_v4_construction_manifest(&manifest, MAX_MANIFEST_BYTES)
            .unwrap_err()
            .message(),
        "v4 ordinal manifest exceeds the reader admission bound"
    );
}

#[test]
fn a_manifest_is_written_as_one_compact_record() {
    let artifact = |name: &str, kind: V4OrdinalArtifactKind| V4OrdinalArtifact {
        name: name.to_owned(),
        kind,
        generation: 7,
        bytes: 16,
        sha256: "ab".to_owned(),
    };
    let manifest = V4OrdinalIdentityManifest {
        format_version: 4,
        topology_generation: 12,
        forward_identities: vec![
            artifact("a\"b", V4OrdinalArtifactKind::ForwardIdentities),
            artifact("\u{1f}\n\\\u{e9}", V4OrdinalArtifactKind::ForwardIdentities),
        ],
        ordinal_ranges: vec![V4OrdinalRange {
            first_node_id: 3,
            count: 1,
            artifact: artifact("o", V4OrdinalArtifactKind::OrdinalUuids),
            blocks: vec![V4OrdinalBlock {
                offset: 0,
                count: 1,
                sha256: "cd".to_owned(),
            }],
        }],
        tombstones: vec![V4OrdinalTombstones {
            generation: 12,
            artifact: artifact("t", V4OrdinalArtifactKind::NodeTombstones),
            blocks: vec![],
        }],
    };
    let bytes = encode_v4_manifest(&manifest);
    let tail = ",\"generation\":7,\"bytes\":16,\"sha256\":\"ab\"}";
    assert_eq!(
        String::from_utf8(bytes.clone()).unwrap(),
        format!(
            "{}{}{}{}{}{}{}",
            "{\"format_version\":4,\"topology_generation\":12,\"forward_identities\":[",
            format!("{{\"name\":\"a\\\"b\",\"kind\":\"forward_identities\"{tail},"),
            format!(
                "{{\"name\":\"\\u001f\\n\\\\\u{e9}\",\"kind\":\"forward_identities\"{tail}],"
            ),
            format!(
                "\"ordinal_ranges\":[{{\"first_node_id\":3,\"count\":1,\"artifact\":{{\"name\":\"o\",\"kind\":\"ordinal_uuids\"{tail},"
            ),
            "\"blocks\":[{\"offset\":0,\"count\":1,\"sha256\":\"cd\"}]}],",
            format!(
                "\"tombstones\":[{{\"generation\":12,\"artifact\":{{\"name\":\"t\",\"kind\":\"node_tombstones\"{tail},"
            ),
            "\"blocks\":[]}]}",
        )
    );
    let value: serde_json::Value = serde_json::from_slice(&bytes).unwrap();
    assert_eq!(value["forward_identities"][0]["name"], "a\"b");
    assert_eq!(value["forward_identities"][1]["name"], "\u{1f}\n\\\u{e9}");
    let length = bytes.len() as u64;
    admit_v4_construction_manifest(&manifest, length).unwrap();
    assert!(admit_v4_construction_manifest(&manifest, length - 1).is_err());
}

#[test]
fn builders_refuse_a_manifest_that_readers_do_not_admit() {
    let admission = "v4 ordinal manifest exceeds the reader admission bound";
    let mapped = forward(&[(10, 7), (20, 3)]);
    let ordinals = vec![
        NodeSurrogate { surrogate: 3, uuid: 20 },
        NodeSurrogate { surrogate: 7, uuid: 10 },
    ];
    let tight = |manifest_bytes: u64| V4OrdinalBounds {
        ranges: MAX_RANGES,
        manifest_bytes,
    };
    let bundle = stage_v4_ordinal_bundle(1, BOUNDS, &mapped, &ordinals).unwrap();
    let length = encode_v4_manifest(&bundle.manifest).len() as u64;
    stage_v4_ordinal_bundle(1, tight(length), &mapped, &ordinals).unwrap();
    assert_eq!(
        stage_v4_ordinal_bundle(1, tight(length - 1), &mapped, &ordinals)
            .unwrap_err()
            .message(),
        admission
    );
    let prepare = |bounds: V4OrdinalBounds| {
        prepare_v4_ordinal_delta(
            1,
            2,
            &bundle.manifest,
            &bundle.files,
            &forward(&[(30, 9)]),
            &tombstones(&[]),
            &"11".repeat(32),
            WIDE,
            bounds,
        )
    };
    let planned = prepare(BOUNDS).unwrap();
    let length = encode_v4_manifest(&planned.manifest).len() as u64;
    prepare(tight(length)).unwrap();
    assert_eq!(prepare(tight(length - 1)).unwrap_err().message(), admission);
    let merge = |maximum: u64| {
        let delta = stage(&[(1, 1), (2, 2)], 1, None).unwrap();
        merge_construction_v4_delta(&empty_manifest(0), delta, &vec![], (0, 0), maximum, None)
    };
    let length = encode_v4_manifest(&merge(MAX_MANIFEST_BYTES).unwrap().manifest).len() as u64;
    merge(length).unwrap();
    assert_eq!(merge(length - 1).unwrap_err().message(), admission);
}

#[test]
fn v4_stream_builder_emits_maximal_authenticated_ranges() {
    let records: Vec<(u128, u64)> = (1_u128..=4_100)
        .map(|value| {
            let node_id = if value <= 4_096 {
                value as u64
            } else {
                value as u64 + 10
            };
            (value, node_id)
        })
        .collect();
    let bundle = stage(&records, 7, None).unwrap();
    let (manifest, metrics) = (&bundle.manifest, bundle.metrics);
    assert_eq!(metrics.input_records, 4_100);
    assert_eq!(metrics.ranges, 2);
    assert_eq!(metrics.cancellation_polls, 4_100);
    assert_eq!(metrics.peak_buffer_bytes, 3 * V4_ORDINAL_BLOCK_BYTES as u64);
    assert_eq!(metrics.peak_temporary_bytes, 4_100 * (24 + 16));
    assert_eq!(metrics.fsync_operations, 4);
    assert_eq!(manifest.ordinal_ranges[0].first_node_id, 1);
    assert_eq!(manifest.ordinal_ranges[0].count, 4_096);
    assert_eq!(manifest.ordinal_ranges[0].blocks.len(), 1);
    assert_eq!(manifest.ordinal_ranges[0].blocks[0].count, 4_096);
    assert_eq!(manifest.ordinal_ranges[1].first_node_id, 4_107);
    assert_eq!(manifest.ordinal_ranges[1].count, 4);
    assert_eq!(manifest.tombstones.len(), 1);
    assert_eq!(manifest.tombstones[0].artifact.bytes, 0);
    assert!(manifest.tombstones[0].blocks.is_empty());

    let first = &manifest.forward_identities[0];
    let bytes = content(&bundle.files, &first.name);
    assert_eq!(bytes.len(), records.len() * 24);
    assert_eq!(hex_sha256(bytes), first.sha256);
    for range in &manifest.ordinal_ranges {
        let bytes = content(&bundle.files, &range.artifact.name);
        assert_eq!(hex_sha256(bytes), range.artifact.sha256);
        assert_eq!(bytes.len() as u64, range.count * 16);
    }
}

#[test]
fn v4_stream_builder_rejects_noncanonical_and_cancelled_input() {
    let error = stage(&[(2, 1), (1, 2)], 1, None).unwrap_err();
    assert!(error.message().contains("not canonical"));
    let error = stage(&[(1, 1), (2, 2)], 1, Some(1)).unwrap_err();
    assert!(error.message().contains("cancelled"));
}

#[test]
fn v4_stream_builder_packs_sparse_ids_without_sparse_max_allocation() {
    let bundle = stage(&[(1, 1), (2, u64::MAX - 1), (3, u64::MAX)], 9, None).unwrap();
    let (manifest, metrics) = (&bundle.manifest, bundle.metrics);
    assert_eq!(manifest.ordinal_ranges.len(), 2);
    assert_eq!(manifest.ordinal_ranges[0].artifact.bytes, 16);
    assert_eq!(manifest.ordinal_ranges[1].artifact.bytes, 32);
    assert_eq!(metrics.artifact_bytes, 3 * 24 + 3 * 16);
    assert_eq!(metrics.peak_temporary_bytes, metrics.artifact_bytes);
    assert_eq!(metrics.fsync_operations, 4);
}

#[test]
fn bundles_need_one_mapping_in_both_orders() {
    let mapped = forward(&[(10, 7), (20, 3), (30, 2)]);
    let ordinals = vec![
        NodeSurrogate { surrogate: 2, uuid: 30 },
        NodeSurrogate { surrogate: 3, uuid: 20 },
        NodeSurrogate { surrogate: 7, uuid: 10 },
    ];
    let bundle = stage_v4_ordinal_bundle(7, BOUNDS, &mapped, &ordinals).unwrap();
    assert_eq!(bundle.manifest.format_version, ORDINAL_IDENTITY_V4);
    assert_eq!(bundle.manifest.ordinal_ranges.len(), 2);
    assert_eq!(lookup(&bundle.manifest, &bundle.files, 3), Some(20));
    assert!(stage_v4_ordinal_bundle(7, BOUNDS, &mapped, &ordinals[..2].to_vec()).is_err());
    assert!(stage_v4_ordinal_bundle(0, BOUNDS, &mapped, &ordinals).is_err());
    assert!(stage_v4_ordinal_bundle(7, ranges(1), &mapped, &ordinals).is_err());
    let crossed = vec![
        NodeSurrogate { surrogate: 2, uuid: 20 },
        NodeSurrogate { surrogate: 3, uuid: 30 },
        NodeSurrogate { surrogate: 7, uuid: 10 },
    ];
    assert!(stage_v4_ordinal_bundle(7, BOUNDS, &mapped, &crossed).is_err());
}

#[test]
fn v4_delta_append_delete_binary_carry_reopens_without_resurrection() {
    let base = stage(&[(1, 1), (2, 2)], 1, None).unwrap();
    let mut pinned = base.files;
    let second = advance(1, &base.manifest, &pinned, &[(3, 3), (4, 4)], &[1]).unwrap();
    let charged = charge_v4_ordinal_delta(&second, 0, 1_048_576).unwrap();
    assert_eq!(charged.input_identities, 2);
    assert_eq!(charged.input_tombstones, 1);
    assert_eq!(charged.prior_topology_rows_decoded, 0);
    assert_eq!(charged.per_record_seeks, 0);
    assert_eq!(charged.compactions, 0);
    install(&mut pinned, &second);

    let third = advance(2, &second.manifest, &pinned, &[(5, 5)], &[2]).unwrap();
    let charged = charge_v4_ordinal_delta(&third, 0, 1_048_576).unwrap();
    assert_eq!(charged.compactions, 1);
    assert_eq!(charged.peak_buffer_bytes, 1_048_576);
    assert_eq!(third.manifest.forward_identities.len(), 2);
    assert_eq!(third.manifest.ordinal_ranges.len(), 2);
    assert_eq!(third.manifest.tombstones.len(), 2);
    install(&mut pinned, &third);
    let values: Vec<Option<u128>> = (1..=5)
        .map(|id| lookup(&third.manifest, &pinned, id))
        .collect();
    assert_eq!(values, vec![None, None, Some(3), Some(4), Some(5)]);
}

#[test]
fn v4_delta_rejects_reuse_and_invalid_tombstones_before_staging() {
    let base = stage(&[(1, 7)], 1, None).unwrap();
    assert!(advance(1, &base.manifest, &base.files, &[(1, 8)], &[]).is_err());
    for (nodes, deleted) in [
        (vec![(2_u128, 7_u64)], vec![]),
        (vec![(2, 8)], vec![0]),
        (vec![(2, 8)], vec![99]),
        (vec![(2, 8), (2, 9)], vec![]),
    ] {
        assert!(advance(1, &base.manifest, &base.files, &nodes, &deleted).is_err());
    }
}

#[test]
fn v4_delta_one_two_four_history_is_bounded_and_binary_carried() {
    let rows = 257_u64;
    let pairs = |first: u64, last: u64| -> Vec<(u128, u64)> {
        (first..=last).map(|id| (u128::from(id), id)).collect()
    };
    let base = stage(&pairs(1, rows), 1, None).unwrap();
    let mut pinned = base.files;
    let mut manifest = base.manifest;
    let mut observed = Vec::new();
    let mut next = rows + 1;
    for generation in 2..=5_u64 {
        let input = rows * (1 << (generation - 2));
        let last = next + input - 1;
        let planned =
            advance(generation - 1, &manifest, &pinned, &pairs(next, last), &[]).unwrap();
        next = last + 1;
        let control = 300_u64;
        let charged = charge_v4_ordinal_delta(&planned, control, 1_048_576).unwrap();
        assert_eq!(charged.input_identities, input);
        assert_eq!(charged.prior_topology_rows_decoded, 0);
        assert_eq!(charged.per_record_seeks, 0);
        assert_eq!(charged.peak_buffer_bytes, 1_048_576);
        assert!(charged.peak_temporary_bytes != 0);
        assert!(charged.fsync_operations >= 3);
        assert!(charged.created_artifacts >= 3);
        assert!(charged.write_blocks != 0);
        assert_eq!(charged.write_bytes, charged.physical_bytes_written);
        if charged.compactions == 0 {
            assert_eq!(charged.sequential_read_bytes, 0);
            assert_eq!(charged.sequential_read_calls, 0);
            assert_eq!(charged.sequential_read_blocks, 0);
        } else {
            assert!(charged.sequential_read_bytes != 0);
            assert!(charged.sequential_read_calls != 0);
            assert!(charged.sequential_read_blocks != 0);
        }
        let data = charged.physical_bytes_written - control;
        let payload = input * 40;
        assert!(data >= payload * 2);
        assert!(data <= (payload + charged.sequential_read_bytes).saturating_mul(2));
        assert!(charged.write_blocks <= data.div_ceil(16) + 2);
        observed.push((charged.compactions, charged.physical_bytes_written));
        install(&mut pinned, &planned);
        manifest = planned.manifest;
    }
    assert_eq!(
        observed.iter().map(|row| row.0).collect::<Vec<_>>(),
        [0, 1, 0, 2]
    );
    assert_eq!(manifest.forward_identities.len(), 2);
    assert_eq!(manifest.ordinal_ranges.len(), 2);
    assert_eq!(next - 1, rows * 16);
    assert!(observed.iter().all(|row| row.1 != 0));
}

#[test]
fn content_addressed_v4_install_reuses_identical_and_preserves_collisions() {
    let mapped = [(1_u128, 1_u64), (2, 2)];
    let staged = stage(&mapped, 1, None).unwrap();
    let names = v4_manifest_artifact_names(&staged.manifest);
    assert_eq!(names.len(), staged.files.len());
    let again = stage(&mapped, 1, None).unwrap();
    let mut installed = staged.files;
    for file in again.files {
        assert!(!install_artifact(&mut installed, file).unwrap());
    }
    assert_eq!(names.len(), installed.len());
    for file in &installed {
        authenticate_private_v4_artifact_file(&file.bytes, &file.descriptor).unwrap();
    }

    installed[0].bytes = b"occupied conflicting authority".to_vec();
    let conflict = stage(&mapped, 1, None)
        .unwrap()
        .files
        .into_iter()
        .find(|file| file.descriptor.name == installed[0].descriptor.name)
        .unwrap();
    let error = install_artifact(&mut installed, conflict).unwrap_err();
    assert!(
        error.message().contains("authentication failed"),
        "{}",
        error.message()
    );
    assert_eq!(installed[0].bytes, b"occupied conflicting authority");
}

fn empty_manifest(generation: u64) -> V4OrdinalIdentityManifest {
    V4OrdinalIdentityManifest {
        format_version: ORDINAL_IDENTITY_V4,
        topology_generation: generation,
        forward_identities: vec![],
        ordinal_ranges: vec![],
        tombstones: vec![],
    }
}

#[test]
fn published_construction_lists_each_artifact_with_its_digest() {
    let bundle = stage(&[(1, 1), (2, 2)], 1, None).unwrap();
    let (receipt, body) = (b"receipt".to_vec(), b"manifest".to_vec());
    let prior = empty_manifest(0);
    let merged = merge_construction_v4_delta(
        &prior,
        bundle,
        &vec![],
        (0, 0),
        MAX_MANIFEST_BYTES,
        None,
    )
    .unwrap();
    assert_eq!(
        publish_v4_construction_artifacts(&merged, "receipt", &receipt, "manifest", &body, true)
            .unwrap_err()
            .message(),
        "construction ordinal publication cancelled"
    );
    let (outputs, metrics) =
        publish_v4_construction_artifacts(&merged, "receipt", &receipt, "manifest", &body, false).unwrap();
    for file in &merged.files {
        let output = outputs
            .iter()
            .find(|output| output.name == file.descriptor.name)
            .unwrap();
        assert_eq!(output.bytes, file.bytes.len() as u64);
        assert_eq!(output.sha256, hex_sha256(&file.bytes));
    }
    assert!(outputs.iter().any(|output| output.name == "receipt"
        && output.sha256 == hex_sha256(&receipt)
        && output.bytes == 7));
    assert!(metrics.write_bytes >= 15);
}

fn sealed(prefix: &str, generation: u64, kind: V4OrdinalArtifactKind, bytes: &[u8]) -> V4ArtifactFile {
    let bytes = bytes.to_vec();
    V4ArtifactFile {
        descriptor: seal_artifact(prefix, generation, kind, &bytes),
        bytes,
    }
}

fn copy(artifact: &V4OrdinalArtifact) -> V4OrdinalArtifact {
    V4OrdinalArtifact {
        name: artifact.name.clone(),
        kind: artifact.kind,
        generation: artifact.generation,
        bytes: artifact.bytes,
        sha256: artifact.sha256.clone(),
    }
}

fn forward_bytes(uuid: u128, node_id: u64) -> Vec<u8> {
    let mut bytes = uuid.to_be_bytes().to_vec();
    bytes.extend_from_slice(&node_id.to_be_bytes());
    bytes
}

#[test]
fn v4_forward_compaction_failure_releases_consumed_input_without_masking_primary() {
    let mut left = forward_bytes(1, 1);
    left.push(0xff);
    let right = forward_bytes(2, 2);
    let mut files = vec![];
    let mut work = V4CompactionWork::none();
    let error = merge_v4_forward_artifacts(&left, &right, 2, &mut files, &mut work, None).unwrap_err();
    assert!(error.message().contains("truncated"), "{}", error.message());
    assert!(files.is_empty());
}

#[test]
fn forward_merge_stops_at_the_first_failure_it_meets() {
    let stop = |left: Vec<u8>, right: Vec<u8>| {
        let mut files = vec![];
        let mut work = V4CompactionWork::none();
        merge_v4_forward_artifacts(&left, &right, 2, &mut files, &mut work, None)
            .unwrap_err()
            .message()
            .to_string()
    };
    let cut = [forward_bytes(1, 1), forward_bytes(4, 4), vec![7]].concat();
    assert_eq!(
        stop(cut.clone(), forward_bytes(1, 9)),
        "v4 compaction observed UUID reuse"
    );
    assert_eq!(
        stop(cut.clone(), [forward_bytes(3, 3), forward_bytes(2, 2)].concat()),
        "v4 compaction input is not sorted unique"
    );
    assert_eq!(
        stop(cut.clone(), [forward_bytes(4, 9), forward_bytes(5, 5)].concat()),
        "truncated fixed-width index record"
    );
    assert_eq!(
        stop(cut, [forward_bytes(6, 6), forward_bytes(5, 5)].concat()),
        "truncated fixed-width index record"
    );
}

#[test]
fn forward_artifacts_merge_in_uuid_order() {
    let (left, right) = (forward_bytes(5, 2), forward_bytes(3, 1));
    let mut files = vec![];
    let mut work = V4CompactionWork::none();
    let (artifact, rest) =
        merge_v4_forward_artifacts(&left, &right, 2, &mut files, &mut work, Some(5)).unwrap();
    // A question for each of two records, and one at the end.
    assert_eq!(rest, Some(2));
    for question in 0..3 {
        assert_eq!(
            merge_v4_forward_artifacts(&left, &right, 2, &mut vec![], &mut work, Some(question))
                .unwrap_err()
                .message(),
            "construction ordinal compaction cancelled"
        );
    }
    assert_eq!(artifact.bytes, 48);
    assert_eq!(files[0].bytes, [right.clone(), left.clone()].concat());
    assert_eq!(artifact.sha256, hex_sha256(&files[0].bytes));
    let (same, rest) =
        merge_v4_forward_artifacts(&left, &left, 2, &mut files, &mut work, Some(2)).unwrap();
    assert_eq!(rest, Some(0));
    assert_eq!(same.bytes, 24);
    let reused = forward_bytes(5, 9);
    assert_eq!(
        merge_v4_forward_artifacts(&left, &reused, 2, &mut files, &mut work, None)
            .unwrap_err()
            .message(),
        "v4 compaction observed UUID reuse"
    );
    let unsorted = [left, right].concat();
    assert_eq!(
        merge_v4_forward_artifacts(&unsorted, &vec![], 2, &mut files, &mut work, None)
            .unwrap_err()
            .message(),
        "v4 compaction input is not sorted unique"
    );
}

#[test]
fn neighbouring_ranges_become_one() {
    let first = sealed(
        "ordinal-v4",
        1,
        V4OrdinalArtifactKind::OrdinalUuids,
        &1_u128.to_be_bytes(),
    );
    let second = sealed(
        "ordinal-v4",
        2,
        V4OrdinalArtifactKind::OrdinalUuids,
        &2_u128.to_be_bytes(),
    );
    let range = |first_node_id: u64, file: &V4ArtifactFile| V4OrdinalRange {
        first_node_id,
        count: 1,
        artifact: copy(&file.descriptor),
        blocks: vec![V4OrdinalBlock {
            offset: 0,
            count: 1,
            sha256: file.descriptor.sha256.clone(),
        }],
    };
    let ranges = vec![range(1, &first), range(2, &second)];
    let pinned = vec![first, second];
    let mut files = vec![];
    let mut work = V4CompactionWork::none();
    for question in 0..2 {
        assert_eq!(
            compact_v4_ordinal_interval(
                &pinned,
                &ranges,
                1,
                2,
                &mut files,
                &mut work,
                Some(question),
            )
            .unwrap_err()
            .message(),
            "construction ordinal compaction cancelled"
        );
        assert!(files.is_empty());
    }
    let (compacted, rest) =
        compact_v4_ordinal_interval(&pinned, &ranges, 1, 2, &mut files, &mut work, Some(3))
            .unwrap();
    assert_eq!(rest, Some(1));
    assert_eq!(compacted.len(), 1);
    assert_eq!((compacted[0].first_node_id, compacted[0].count), (1, 2));
    assert_eq!(
        files[0].bytes,
        [1_u128.to_be_bytes(), 2_u128.to_be_bytes()].concat()
    );
}

#[test]
fn ranges_outside_the_interval_may_be_empty() {
    let file = sealed(
        "ordinal-v4",
        9,
        V4OrdinalArtifactKind::OrdinalUuids,
        &1_u128.to_be_bytes(),
    );
    let ranges = vec![V4OrdinalRange {
        first_node_id: 1,
        count: 0,
        artifact: copy(&file.descriptor),
        blocks: vec![],
    }];
    let mut files = vec![];
    let mut work = V4CompactionWork::none();
    let (kept, rest) =
        compact_v4_ordinal_interval(&vec![file], &ranges, 1, 2, &mut files, &mut work, Some(0))
            .unwrap();
    assert_eq!(rest, Some(0));
    assert_eq!(kept, ranges);
    assert!(files.is_empty());
}

#[test]
fn a_carry_stops_at_the_question_that_is_answered_with_no() {
    let mut pinned = Vec::new();
    let mut manifest = stage(&[(1, 1)], 1, None).unwrap().manifest;
    let mut bundles = vec![stage(&[(1, 1)], 1, None).unwrap()];
    for generation in 2..4_u64 {
        bundles.push(stage(&[(u128::from(generation), generation)], generation, None).unwrap());
    }
    for bundle in bundles {
        if bundle.manifest.topology_generation > 1 {
            manifest.topology_generation = bundle.manifest.topology_generation;
            manifest.forward_identities.extend(bundle.manifest.forward_identities);
            manifest.ordinal_ranges.extend(bundle.manifest.ordinal_ranges);
            manifest.tombstones.extend(bundle.manifest.tombstones);
        }
        pinned.extend(bundle.files);
    }
    let mut files = vec![];
    // A question before the merge, three for the two forward records, one for
    // each of the two identities that are copied, and one before the end.
    for question in 0..7 {
        let mut current = manifest.duplicate();
        let error = compact_v4_binary_carry_with_cancellation(
            &pinned,
            &mut current,
            &mut files,
            Some(question),
        )
        .unwrap_err();
        assert_eq!(error.message(), "construction ordinal compaction cancelled");
        assert_eq!(current, manifest);
        assert!(files.is_empty());
    }
    let mut current = manifest.duplicate();
    let work =
        compact_v4_binary_carry_with_cancellation(&pinned, &mut current, &mut files, Some(7))
            .unwrap();
    assert_eq!(work.compactions, 1);
    assert_eq!(current.forward_identities.len(), 2);
    let mut again = manifest.duplicate();
    let mut other = vec![];
    assert_eq!(compact_v4_binary_carry(&pinned, &mut again, &mut other).unwrap(), work);
    assert_eq!(again, current);
}

#[test]
fn every_node_of_a_valid_topology_is_rebuilt() {
    for limits in [WIDE, NARROW] {
        let nodes = rows(&[(9, 4), (3, 1), (7, 2), (5, 9)]);
        let staged = rebuild_v4_ordinal_identity(2, &nodes, limits, ranges(3)).unwrap();
        assert_eq!(staged.build.node_count, 4);
        assert_eq!(staged.bundle.metrics.input_records, 4);
        assert_eq!(staged.bundle.manifest.ordinal_ranges.len(), 3);
        assert_eq!(
            rebuild_v4_ordinal_identity(2, &nodes, limits, ranges(2))
                .unwrap_err()
                .message(),
            "v4 ordinal range inventory exceeds bound"
        );
    }
}

#[test]
fn tombstone_runs_merge_into_ordered_ids() {
    let first = sealed(
        "tombstones-v4",
        1,
        V4OrdinalArtifactKind::NodeTombstones,
        &5_u64.to_be_bytes(),
    );
    let second = sealed(
        "tombstones-v4",
        2,
        V4OrdinalArtifactKind::NodeTombstones,
        &2_u64.to_be_bytes(),
    );
    let run = |generation: u64, file: &V4ArtifactFile| V4OrdinalTombstones {
        generation,
        artifact: copy(&file.descriptor),
        blocks: vec![],
    };
    let runs = vec![run(1, &first), run(2, &second)];
    let pinned = vec![first, second];
    let mut files = vec![];
    let mut work = V4CompactionWork::none();
    for question in 0..2 {
        let runs = vec![run(1, &pinned[0]), run(2, &pinned[1])];
        assert_eq!(
            compact_v4_tombstone_interval(
                &pinned,
                runs,
                1,
                2,
                &mut files,
                &mut work,
                Some(question),
            )
            .unwrap_err()
            .message(),
            "construction ordinal compaction cancelled"
        );
    }
    let (compacted, rest) =
        compact_v4_tombstone_interval(&pinned, runs, 1, 2, &mut files, &mut work, Some(2))
            .unwrap();
    assert_eq!(rest, Some(0));
    assert_eq!(compacted.len(), 1);
    assert_eq!(compacted[0].generation, 2);
    assert_eq!(
        content(&files, &compacted[0].artifact.name),
        &[2_u64.to_be_bytes(), 5_u64.to_be_bytes()].concat()
    );
}

#[test]
fn tombstone_merge_stops_at_the_first_failure_it_meets() {
    let stop = |contents: [Option<Vec<u8>>; 2]| {
        let mut runs = vec![];
        let mut pinned = vec![];
        for (index, bytes) in contents.into_iter().enumerate() {
            let generation = index as u64 + 1;
            let file = sealed(
                "tombstones-v4",
                generation,
                V4OrdinalArtifactKind::NodeTombstones,
                &bytes.clone().unwrap_or_default(),
            );
            runs.push(V4OrdinalTombstones {
                generation,
                artifact: copy(&file.descriptor),
                blocks: vec![],
            });
            if bytes.is_some() {
                pinned.push(file);
            }
        }
        let mut files = vec![];
        let mut work = V4CompactionWork::none();
        compact_v4_tombstone_interval(&pinned, runs, 1, 2, &mut files, &mut work, None)
            .unwrap_err()
            .message()
            .to_string()
    };
    let ids = |ids: &[u64]| {
        let bytes: Vec<u8> = ids.iter().flat_map(|id| id.to_be_bytes()).collect();
        bytes
    };
    let late = ids(&[5, 3]);
    let cut = [ids(&[7, 9]), vec![1]].concat();
    assert_eq!(
        stop([Some(late.clone()), None]),
        "authenticated v4 update input is absent"
    );
    assert_eq!(
        stop([Some(late.clone()), Some(cut.clone())]),
        "v4 tombstone stream is not strictly increasing"
    );
    assert_eq!(
        stop([Some(late), Some(vec![1])]),
        "truncated fixed-width index record"
    );
    assert_eq!(
        stop([Some(ids(&[10, 8])), Some(cut)]),
        "truncated fixed-width index record"
    );
}

#[test]
fn forward_intervals_start_at_the_first_generation() {
    let bundle = stage(&[(1, 1)], 3, None).unwrap();
    assert_eq!(
        v4_forward_intervals(&bundle.manifest.forward_identities).unwrap(),
        vec![(1, 3, 0)]
    );
    assert_eq!(
        v4_forward_intervals(&vec![]).unwrap_err().message(),
        "v4 forward base generation is invalid"
    );
}

fn rows(nodes: &[(u128, u64)]) -> Vec<NodeRow> {
    nodes
        .iter()
        .map(|(uuid, node_id)| NodeRow {
            row: 0,
            uuid: Some(*uuid),
            node_id: Some(*node_id),
        })
        .collect()
}

#[test]
fn explicit_v4_rebuild_uses_topology_and_independent_projection_orders() {
    let staged =
        rebuild_v4_ordinal_identity(7, &rows(&[(30, 2), (10, 7), (20, 3)]), NARROW, BOUNDS)
            .unwrap();
    let evidence =
        rebuild_v4_ordinal_identity_with_evidence(&staged, MAX_MANIFEST_BYTES, 200).unwrap();
    assert_eq!(
        evidence.disposition,
        V4OrdinalRebuildDisposition::CanonicalTopology
    );
    assert_eq!(evidence.topology_generation, 7);
    assert_eq!(evidence.input_identities, 3);
    assert_eq!(evidence.ordinal_ranges, 2);
    assert!(evidence.artifact_bytes >= 3 * (24 + 16));
    assert!(evidence.write_blocks >= 3);
    assert!(evidence.peak_buffer_bytes <= 3 * V4_ORDINAL_BLOCK_BYTES as u64);
    assert_eq!(evidence.build.node_count, 3);
    let manifest = &staged.bundle.manifest;
    assert_eq!(manifest.topology_generation, 7);
    assert_eq!(manifest.ordinal_ranges.len(), 2);
    assert_eq!(manifest.ordinal_ranges[0].first_node_id, 2);
    assert_eq!(manifest.ordinal_ranges[0].count, 2);
    assert_eq!(manifest.ordinal_ranges[1].first_node_id, 7);
    let bytes = content(&staged.bundle.files, &manifest.forward_identities[0].name);
    let uuids: Vec<u128> = bytes
        .chunks_exact(24)
        .map(|record| u128::from_be_bytes(record[..16].try_into().unwrap()))
        .collect();
    assert_eq!(uuids, vec![10, 20, 30]);
    let length = encode_v4_manifest(manifest).len() as u64;
    rebuild_v4_ordinal_identity_with_evidence(&staged, length, 200).unwrap();
    assert_eq!(
        rebuild_v4_ordinal_identity_with_evidence(&staged, length - 1, 200)
            .unwrap_err()
            .message(),
        "v4 ordinal manifest exceeds bound"
    );
}

#[test]
fn v4_rebuild_scratch_accounting_is_exact_linear_and_overflow_bounded() {
    for identities in [1_u64, 2, 4] {
        let nodes: Vec<(u128, u64)> = (1..=identities).map(|id| (u128::from(id), id)).collect();
        let staged = rebuild_v4_ordinal_identity(7, &rows(&nodes), NARROW, BOUNDS).unwrap();
        let manifest_bytes = encode_v4_manifest(&staged.bundle.manifest).len() as u64;
        let receipt_bytes = 251;
        let evidence = rebuild_v4_ordinal_identity_with_evidence(
            &staged,
            MAX_MANIFEST_BYTES,
            receipt_bytes,
        )
        .unwrap();
        let with_live_scratch = identities * 48 + evidence.artifact_bytes * 2 + manifest_bytes;
        let after_scratch_release = evidence.artifact_bytes + manifest_bytes + receipt_bytes;
        assert_eq!(
            evidence.peak_temporary_bytes,
            with_live_scratch.max(after_scratch_release)
        );
    }

    let mut projection_overflow = V4RebuildScratchAccounting::none();
    projection_overflow.sorted_projection_bytes = u64::MAX;
    assert!(projection_overflow.register_artifacts(1).is_err());
    let mut artifact_overflow = V4RebuildScratchAccounting::none();
    artifact_overflow.retained_staged_bytes = u64::MAX;
    assert!(artifact_overflow.register_staged_artifact(1).is_err());
    let mut control_overflow = V4RebuildScratchAccounting::none();
    control_overflow.staged_control_bytes = u64::MAX;
    assert!(control_overflow.register_staged_control(1).is_err());
}
