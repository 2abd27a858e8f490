use graphforge_storage::error::GfError;
use graphforge_storage::json_documents::{JsonDocument, JsonObject};
use graphforge_storage::workspace::{
    GraphDirectedness, OntologyMode, ProjectParticipantEncoding, WorkspaceOntology,
    WorkspaceOntologyMode, WorkspaceOntologySourceFormat, WORKSPACE_CAPABILITY_ID,
    WORKSPACE_CONFIGURATION_FAMILY, WORKSPACE_ONTOLOGY_COMPOSITION_FAMILY,
    WORKSPACE_ONTOLOGY_FAMILY, WORKSPACE_PORTABLE_ONTOLOGY_STAGING_FAMILY,
    WORKSPACE_REPOSITORY_SNAPSHOT_FAMILY,
};
use graphforge_storage::workspace_composition::{
    admit_composition, adoption_order, canonical_bridges, check_canonical_record,
    check_fingerprint, composition_participant, is_projected_identity, legacy_ontology_id, staging_participant,
    validate_composition, validate_staging, BridgeKey, BridgeNode,
    MAX_WORKSPACE_ONTOLOGY_COMPOSITION_BYTES,
};
use graphforge_storage::workspace_configuration::{
    empty_workspace_participants, WorkspaceConfiguration,
};
use graphforge_storage::workspace_snapshot::{
    WorkspaceRepositoryDefinitionDigest, WorkspaceRepositoryGitProvenance,
    WorkspaceRepositorySnapshot, WorkspaceRepositorySourceDigest,
    MAX_WORKSPACE_REPOSITORY_SNAPSHOT_BYTES, MAX_WORKSPACE_REPOSITORY_SNAPSHOT_ENTRIES,
    MAX_WORKSPACE_REPOSITORY_SNAPSHOT_ID_BYTES, WORKSPACE_REPOSITORY_SNAPSHOT_VERSION,
};
use sha2::{Digest, Sha256};

fn definition(id: &str, digits: &str) -> WorkspaceRepositoryDefinitionDigest {
    WorkspaceRepositoryDefinitionDigest {
        definition_id: id.to_owned(),
        sha256: digits.repeat(32),
    }
}

fn repository_snapshot() -> WorkspaceRepositorySnapshot {
    WorkspaceRepositorySnapshot {
        contract_version: WORKSPACE_REPOSITORY_SNAPSHOT_VERSION,
        resolved_config_sha256: "11".repeat(32),
        definitions: vec![definition("migrations", "22"), definition("ontology", "33")],
        sources: vec![WorkspaceRepositorySourceDigest {
            source_id: "customers".to_owned(),
            sha256: "44".repeat(32),
        }],
        git: WorkspaceRepositoryGitProvenance {
            commit_sha: Some("a1".repeat(20)),
            dirty: true,
        },
        operation_uuid: u128::from_be_bytes([5; 16]),
        actor_uuid: Some(u128::from_be_bytes([6; 16])),
    }
}

fn hex(bytes: &[u8]) -> String {
    bytes.iter().map(|byte| format!("{byte:02x}")).collect()
}

fn contains(bytes: &[u8], text: &str) -> bool {
    String::from_utf8(bytes.to_vec()).unwrap().contains(text)
}

#[test]
fn empty_records_round_trip_canonically() {
    let ontology = WorkspaceOntology::none();
    let ontology_bytes = ontology.to_canonical_json().unwrap();
    assert_eq!(
        WorkspaceOntology::from_canonical_json(&ontology_bytes).unwrap(),
        ontology
    );

    let configuration = WorkspaceConfiguration::empty();
    let configuration_bytes = configuration.to_canonical_json().unwrap();
    assert_eq!(
        WorkspaceConfiguration::from_canonical_json(&configuration_bytes).unwrap(),
        configuration
    );
    assert!(
        !contains(&configuration_bytes, "graph_directedness"),
        "unset directedness must omit the additive field for byte stability"
    );
}

#[test]
fn graph_directedness_round_trips_and_rejects_unknown_values() {
    let mut configuration = WorkspaceConfiguration::empty();
    configuration.graph_directedness = Some(GraphDirectedness::Directed);
    let bytes = configuration.to_canonical_json().unwrap();
    assert!(contains(&bytes, "\"graph_directedness\":\"directed\""));
    assert_eq!(
        WorkspaceConfiguration::from_canonical_json(&bytes).unwrap(),
        configuration
    );

    let invalid = br#"{"contract_version":1,"ontology_mode":"none","capability_configuration":{},"embedding_configuration":{},"graph_directedness":"bidirectional"}
"#;
    assert_eq!(
        WorkspaceConfiguration::from_canonical_json(invalid)
            .unwrap_err()
            .code(),
        "GF_PROJECT_CORRUPT"
    );
}

#[test]
fn future_and_noncanonical_records_fail_closed() {
    let mut future = WorkspaceOntology::none();
    future.contract_version = 2;
    assert_eq!(
        future.to_canonical_json().unwrap_err().code(),
        "GF_PROJECT_CORRUPT"
    );

    let bytes = br#"{"mode":"none","contract_version":1,"source_format":null,"canonical_ontology_sha256":null,"canonical_ontology":null}
"#;
    assert_eq!(
        WorkspaceOntology::from_canonical_json(bytes)
            .unwrap_err()
            .code(),
        "GF_PROJECT_CORRUPT"
    );
}

#[test]
fn adopted_ontology_requires_matching_digest() {
    let record = WorkspaceOntology {
        contract_version: 1,
        mode: WorkspaceOntologyMode::Strict,
        source_format: Some(WorkspaceOntologySourceFormat::Json),
        canonical_ontology_sha256: Some("0".repeat(64)),
        canonical_ontology: JsonDocument::parse("{\"ontology_id\": \"x\"}"),
    };
    assert!(record.canonical_ontology.is_some());
    assert_eq!(
        record.to_canonical_json().unwrap_err().code(),
        "GF_PROJECT_CORRUPT"
    );
}

#[test]
fn adopted_ontology_round_trips() {
    let text = "{\"ontology_id\":\"x\"}";
    let record = WorkspaceOntology {
        contract_version: 1,
        mode: WorkspaceOntologyMode::Advisory,
        source_format: Some(WorkspaceOntologySourceFormat::Json),
        canonical_ontology_sha256: Some(hex(&Sha256::digest(text))),
        canonical_ontology: JsonDocument::parse("{ \"ontology_id\" : \"x\" }"),
    };
    let bytes = record.to_canonical_json().unwrap();
    assert!(contains(&bytes, text));
    assert_eq!(
        WorkspaceOntology::from_canonical_json(&bytes).unwrap(),
        record
    );
    assert_eq!(record.mode.execution_mode(), OntologyMode::Advisory);
}

#[test]
fn a_record_is_not_read_where_it_is_nested_too_deep_as_a_whole() {
    for (depth, reads) in [(126, true), (127, false)] {
        let text = format!("{}{}", "[".repeat(depth), "]".repeat(depth));
        let record = WorkspaceOntology {
            contract_version: 1,
            mode: WorkspaceOntologyMode::Advisory,
            source_format: Some(WorkspaceOntologySourceFormat::Json),
            canonical_ontology_sha256: Some(hex(&Sha256::digest(&text))),
            canonical_ontology: JsonDocument::parse(&text),
        };
        assert!(record.canonical_ontology.is_some());
        let bytes = record.to_canonical_json().unwrap();
        let read = WorkspaceOntology::from_canonical_json(&bytes);
        assert_eq!(read.is_ok(), reads);
        if let Err(error) = read {
            assert_eq!(error.message(), "workspace ontology is malformed");
        }
    }
    for (depth, reads) in [(125, true), (126, false)] {
        let text = format!("{{\"a\":{}{}}}", "[".repeat(depth), "]".repeat(depth));
        let record = WorkspaceConfiguration {
            embedding_configuration: JsonObject::parse(&text).unwrap(),
            ..WorkspaceConfiguration::empty()
        };
        let bytes = record.to_canonical_json().unwrap();
        let read = WorkspaceConfiguration::from_canonical_json(&bytes);
        assert_eq!(read.is_ok(), reads);
        if let Err(error) = read {
            assert_eq!(error.message(), "workspace configuration is malformed");
        }
    }
}

#[test]
fn repository_snapshot_round_trips_canonically_as_registered_participant() {
    let snapshot = repository_snapshot();
    let bytes = snapshot.to_canonical_json().unwrap();
    assert_eq!(
        WorkspaceRepositorySnapshot::from_canonical_json(&bytes).unwrap(),
        snapshot
    );
    assert_eq!(bytes.last(), Some(&b'\n'));
    assert!(!bytes.windows(2).any(|window| window == b"\n\n"));
    assert!(!contains(&bytes, "/Users/"));

    let participant = snapshot.to_project_participant().unwrap();
    assert_eq!(participant.capability_id, WORKSPACE_CAPABILITY_ID);
    assert_eq!(
        participant.record_family_id,
        WORKSPACE_REPOSITORY_SNAPSHOT_FAMILY
    );
    let expected_fingerprint: [u8; 32] = Sha256::digest("workspace/repository_snapshot@1").into();
    assert_eq!(participant.schema_fingerprint, expected_fingerprint);
    assert_eq!(participant.bytes, bytes);
}

#[test]
fn repository_snapshot_has_its_exact_bytes() {
    let bytes = repository_snapshot().to_canonical_json().unwrap();
    let expected = format!(
        "{{\"contract_version\":1,\"resolved_config_sha256\":\"{}\",\
         \"definitions\":[{{\"definition_id\":\"migrations\",\"sha256\":\"{}\"}},\
         {{\"definition_id\":\"ontology\",\"sha256\":\"{}\"}}],\
         \"sources\":[{{\"source_id\":\"customers\",\"sha256\":\"{}\"}}],\
         \"git\":{{\"commit_sha\":\"{}\",\"dirty\":true}},\
         \"operation_uuid\":\"05050505-0505-0505-0505-050505050505\",\
         \"actor_uuid\":\"06060606-0606-0606-0606-060606060606\"}}\n",
        "11".repeat(32),
        "22".repeat(32),
        "33".repeat(32),
        "44".repeat(32),
        "a1".repeat(20),
    );
    assert_eq!(String::from_utf8(bytes).unwrap(), expected);
}

#[test]
fn repository_snapshot_rejects_future_noncanonical_and_unbounded_records() {
    let code = |snapshot: WorkspaceRepositorySnapshot| snapshot.to_canonical_json().unwrap_err();
    let mut future = repository_snapshot();
    future.contract_version += 1;
    assert_eq!(code(future).code(), "GF_PROJECT_CORRUPT");

    let mut unordered = repository_snapshot();
    unordered.definitions.reverse();
    assert_eq!(code(unordered).code(), "GF_PROJECT_CORRUPT");

    let mut duplicate = repository_snapshot();
    duplicate.sources.push(WorkspaceRepositorySourceDigest {
        source_id: "customers".to_owned(),
        sha256: "44".repeat(32),
    });
    assert_eq!(code(duplicate).code(), "GF_PROJECT_CORRUPT");

    let mut oversized_id = repository_snapshot();
    oversized_id.sources[0].source_id = "x".repeat(MAX_WORKSPACE_REPOSITORY_SNAPSHOT_ID_BYTES + 1);
    assert_eq!(code(oversized_id).code(), "GF_PROJECT_CORRUPT");

    let mut too_many = repository_snapshot();
    too_many.definitions = (0..=MAX_WORKSPACE_REPOSITORY_SNAPSHOT_ENTRIES)
        .map(|index| definition(&format!("{index:05}"), "55"))
        .collect();
    assert_eq!(code(too_many).code(), "GF_PROJECT_CORRUPT");

    let mut absolute_id = repository_snapshot();
    absolute_id.sources[0].source_id = "/private/data/customers".to_owned();
    assert_eq!(code(absolute_id).code(), "GF_PROJECT_CORRUPT");
    for hostile in [
        "../customers",
        "file:///private/customers",
        "customers/data",
        "customers\\data",
        ".hidden",
        "Customers",
        "9customers",
    ] {
        let mut hostile_id = repository_snapshot();
        hostile_id.sources[0].source_id = hostile.to_owned();
        assert_eq!(code(hostile_id).code(), "GF_PROJECT_CORRUPT", "{hostile}");
    }

    let oversized = vec![b' '; MAX_WORKSPACE_REPOSITORY_SNAPSHOT_BYTES + 1];
    assert_eq!(
        WorkspaceRepositorySnapshot::from_canonical_json(&oversized)
            .unwrap_err()
            .code(),
        "GF_PROJECT_CORRUPT"
    );

    let with_unrestricted_field =
        String::from_utf8(repository_snapshot().to_canonical_json().unwrap())
            .unwrap()
            .replacen(
                "\"actor_uuid\"",
                "\"absolute_path\":\"/secret/data\",\"actor_uuid\"",
                1,
            );
    assert_eq!(
        WorkspaceRepositorySnapshot::from_canonical_json(with_unrestricted_field.as_bytes())
            .unwrap_err()
            .code(),
        "GF_PROJECT_CORRUPT"
    );
}

#[test]
fn composition_participant_rejects_fingerprint_tampering() {
    let fingerprint = "00".repeat(32);
    assert_eq!(
        validate_composition(2, &fingerprint).unwrap_err().code(),
        "GF_PROJECT_CORRUPT"
    );
    validate_composition(1, &fingerprint).unwrap();
    assert_eq!(
        check_fingerprint(&"11".repeat(32), &fingerprint)
            .unwrap_err()
            .code(),
        "GF_PROJECT_CORRUPT"
    );
    check_fingerprint(&fingerprint, &fingerprint).unwrap();
}

#[test]
fn directedness_tokens_come_back() {
    for directedness in [GraphDirectedness::Directed, GraphDirectedness::Undirected] {
        assert_eq!(
            GraphDirectedness::parse(directedness.as_str()).unwrap(),
            directedness
        );
    }
    assert!(GraphDirectedness::parse("bidirectional").is_err());
}

#[test]
fn an_empty_workspace_has_two_participants() {
    let participants = empty_workspace_participants().unwrap();
    let families: Vec<&str> = participants
        .iter()
        .map(|participant| participant.record_family_id.as_str())
        .collect();
    assert_eq!(
        families,
        vec![WORKSPACE_CONFIGURATION_FAMILY, WORKSPACE_ONTOLOGY_FAMILY]
    );
    for participant in &participants {
        assert_eq!(participant.encoding, ProjectParticipantEncoding::Json);
        let fingerprint: [u8; 32] =
            Sha256::digest(format!("workspace/{}@1", participant.record_family_id)).into();
        assert_eq!(participant.schema_fingerprint, fingerprint);
    }
}

#[test]
fn documents_are_normalized() {
    let object = JsonObject::parse(" { \"b\" : 1, \"a\" : [ true , null ] } ").unwrap();
    assert_eq!(object.text(), "{\"a\":[true,null],\"b\":1}");
    assert!(JsonObject::parse("[1]").is_none());
    assert!(JsonDocument::parse("{").is_none());
    assert_eq!(JsonObject::empty().text(), "{}");
}

#[test]
fn bridges_are_adopted_after_what_they_depend_on() {
    let bridge = |reference: &str, dependencies: &[&str]| BridgeNode {
        reference: reference.to_owned(),
        dependencies: dependencies.iter().map(|name| name.to_string()).collect(),
    };
    let order = adoption_order(&vec![
        bridge("c", &["a", "b"]),
        bridge("b", &["a"]),
        bridge("a", &[]),
    ])
    .unwrap();
    assert_eq!(order, vec![2, 1, 0]);
    assert!(adoption_order(&vec![bridge("a", &["b"]), bridge("b", &["a"])]).is_err());
}

#[test]
fn composition_records_are_bounded_and_canonical() {
    admit_composition(MAX_WORKSPACE_ONTOLOGY_COMPOSITION_BYTES).unwrap();
    assert!(admit_composition(MAX_WORKSPACE_ONTOLOGY_COMPOSITION_BYTES + 1).is_err());
    let participant = composition_participant(b"{}\n".to_vec()).unwrap();
    assert_eq!(
        participant.record_family_id,
        WORKSPACE_ONTOLOGY_COMPOSITION_FAMILY
    );
    assert_eq!(
        staging_participant(b"{}\n".to_vec()).record_family_id,
        WORKSPACE_PORTABLE_ONTOLOGY_STAGING_FAMILY
    );
    let tagged = |digits: &str| format!("sha256:{}", digits.repeat(32));
    validate_staging(1, &tagged("22"), &tagged("33")).unwrap();
    assert!(validate_staging(2, &tagged("22"), &tagged("33")).is_err());
    assert!(validate_staging(1, &"22".repeat(32), &tagged("33")).is_err());
    assert!(validate_staging(1, &tagged("22"), &tagged("3g")).is_err());
    check_canonical_record(b"{}\n", Some(b"{}\n"), "record").unwrap();
    let message = |result: Result<(), GfError>| result.unwrap_err().message();
    assert_eq!(
        message(check_canonical_record(b"{}", Some(b"{}"), "record")),
        "record is not canonical JSON plus LF"
    );
    assert_eq!(
        message(check_canonical_record(b"{}\n", None, "record")),
        "record is malformed"
    );
    assert_eq!(
        message(check_canonical_record(b"{ }\n", Some(b"{}\n"), "record")),
        "record is not canonically encoded"
    );
}

#[test]
fn a_legacy_ontology_is_named_by_its_digest() {
    let digest = "ab".repeat(32);
    let id = legacy_ontology_id(&Some(digest)).unwrap();
    assert!(id.starts_with("legacy:"));
    assert!(is_projected_identity(&id));
    assert!(legacy_ontology_id(&None).is_err());
    assert!(!is_projected_identity("https://graphforge.dev/ontology/x"));
}

#[test]
fn bridges_are_recorded_by_identity_and_version() {
    let key = |bridge_id: &str, authored_version: &str, place: usize| BridgeKey {
        bridge_id: bridge_id.to_owned(),
        authored_version: authored_version.to_owned(),
        place,
    };
    let sorted = canonical_bridges(vec![
        key("b", "1", 0),
        key("a", "2", 1),
        key("ab", "1", 2),
        key("a", "1", 3),
        key("a", "1", 4),
    ]);
    let places: Vec<usize> = sorted.iter().map(|bridge| bridge.place).collect();
    assert_eq!(places, [3, 4, 1, 2, 0]);
}

#[test]
fn legacy_ontology_projects_without_rewriting_and_first_composition_is_canonical() {
    let document = JsonDocument::parse(
        "{\"ontology_id\":\"https://graphforge.dev/ontology/legacy\",\"version\":\"1.0.0\",\
         \"entity_types\":[{\"name\":\"Person\",\"abstract\":false,\"parent\":null}],\
         \"relation_types\":[],\"properties\":[],\"constraints\":[],\"migrations\":[]}",
    )
    .unwrap();
    let legacy = WorkspaceOntology {
        contract_version: 1,
        mode: WorkspaceOntologyMode::Strict,
        source_format: Some(WorkspaceOntologySourceFormat::Json),
        canonical_ontology_sha256: Some(hex(&Sha256::digest(document.text()))),
        canonical_ontology: Some(document),
    };
    let projected = legacy_ontology_id(&legacy.canonical_ontology_sha256).unwrap();
    assert!(projected.starts_with("legacy:"));
    assert!(is_projected_identity(&projected));
    assert_eq!(legacy.mode.execution_mode(), OntologyMode::Strict);

    let bytes = legacy.to_canonical_json().unwrap();
    assert_eq!(WorkspaceOntology::from_canonical_json(&bytes).unwrap(), legacy);
    let participant = composition_participant(bytes).unwrap();
    assert_eq!(
        participant.record_family_id,
        WORKSPACE_ONTOLOGY_COMPOSITION_FAMILY
    );
    assert_eq!(
        legacy.to_canonical_json().unwrap(),
        legacy.to_canonical_json().unwrap()
    );
}

#[test]
fn records_that_are_encoded_otherwise_are_told_from_malformed_ones() {
    let message = |error: GfError| {
        assert_eq!(error.code(), "GF_PROJECT_CORRUPT");
        error.message()
    };
    let bytes = repository_snapshot().to_canonical_json().unwrap();
    let read = |bytes: &[u8], parsed: Option<WorkspaceRepositorySnapshot>| {
        WorkspaceRepositorySnapshot::from_parsed_json(bytes, parsed)
    };
    assert_eq!(
        read(&bytes, Some(repository_snapshot())).unwrap(),
        repository_snapshot()
    );
    let mut spaced = vec![b' '];
    spaced.extend_from_slice(&bytes);
    assert_eq!(
        message(read(&spaced, Some(repository_snapshot())).unwrap_err()),
        "workspace repository snapshot is not canonically encoded"
    );
    assert_eq!(
        message(read(&spaced, None).unwrap_err()),
        "workspace repository snapshot is malformed"
    );
    let mut future = repository_snapshot();
    future.contract_version += 1;
    let reported = message(read(&spaced, Some(future)).unwrap_err());
    assert_ne!(
        reported,
        "workspace repository snapshot is not canonically encoded"
    );
    assert_eq!(
        message(read(&bytes[1..bytes.len() - 1], None).unwrap_err()),
        "workspace repository snapshot is not canonical JSON plus LF"
    );

    let bytes = WorkspaceOntology::none().to_canonical_json().unwrap();
    assert_eq!(
        WorkspaceOntology::from_parsed_json(&bytes, Some(WorkspaceOntology::none())).unwrap(),
        WorkspaceOntology::none()
    );
    let mut spaced = vec![b' '];
    spaced.extend_from_slice(&bytes);
    assert_eq!(
        message(
            WorkspaceOntology::from_parsed_json(&spaced, Some(WorkspaceOntology::none()))
                .unwrap_err()
        ),
        "workspace ontology is not canonically encoded"
    );
    assert_eq!(
        message(WorkspaceOntology::from_parsed_json(&spaced, None).unwrap_err()),
        "workspace ontology is malformed"
    );

    let bytes = WorkspaceConfiguration::empty().to_canonical_json().unwrap();
    assert_eq!(
        WorkspaceConfiguration::from_parsed_json(&bytes, Some(WorkspaceConfiguration::empty()))
            .unwrap(),
        WorkspaceConfiguration::empty()
    );
    let mut spaced = vec![b' '];
    spaced.extend_from_slice(&bytes);
    let parsed = Some(WorkspaceConfiguration::empty());
    assert_eq!(
        message(WorkspaceConfiguration::from_parsed_json(&spaced, parsed).unwrap_err()),
        "workspace configuration is not canonically encoded"
    );
    assert_eq!(
        message(WorkspaceConfiguration::from_parsed_json(&spaced, None).unwrap_err()),
        "workspace configuration is malformed"
    );
    let mut future = WorkspaceConfiguration::empty();
    future.contract_version = 2;
    assert_eq!(
        message(WorkspaceConfiguration::from_parsed_json(&spaced, Some(future)).unwrap_err()),
        "unsupported workspace configuration contract"
    );
}

#[test]
fn settings_are_read_back_wherever_their_brackets_close() {
    let tricky = "{\"a\":\"},\\\"embedding_configuration\\\":{\",\"b\":[{\"c\":{}}]}";
    let record = WorkspaceConfiguration {
        contract_version: 1,
        ontology_mode: WorkspaceOntologyMode::Advisory,
        capability_configuration: JsonObject::parse(tricky).unwrap(),
        embedding_configuration: JsonObject::parse(tricky).unwrap(),
        graph_directedness: Some(GraphDirectedness::Undirected),
    };
    let bytes = record.to_canonical_json().unwrap();
    assert_eq!(
        WorkspaceConfiguration::from_canonical_json(&bytes).unwrap(),
        record
    );
}
