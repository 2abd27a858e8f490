use graphforge_storage::vector_store::{
    admit_search, admit_snapshot_file, apply_vector_upsert, checked_cells, encode_columns,
    prepare_vector_snapshot, published_vector_dimension, rank_hits, read_vector_snapshot,
    upsert_published_vector, validate_dimension, validate_published_vectors,
    validate_query_dimension, validate_rows, validate_vector, vector_schema, CurrentVectors,
    PublishedSearchArtifact, ScoredNode, SearchArtifactError, SearchArtifactKey, SearchIndexKind,
    SearchManifest, SearchUpdateBuild, StoredVector, VectorBatch, VectorColumnType,
    VectorStoreLimits, VectorUpsertChange, VECTOR_BACKEND_VERSION, VECTOR_CONTRACT_VERSION,
};

fn bits(vector: &[f32]) -> Vec<u32> {
    vector.iter().map(|value| value.to_bits()).collect()
}

fn row(value: u128, vector: &[f32], updated_at_micros: i64) -> StoredVector {
    StoredVector {
        node_uuid: value,
        vector: bits(vector),
        updated_at_micros,
    }
}

fn batch(rows: &Vec<StoredVector>) -> VectorBatch {
    VectorBatch {
        mismatch: None,
        has_nulls: false,
        columns: encode_columns(rows),
    }
}

fn person_key() -> SearchArtifactKey {
    SearchArtifactKey {
        kind: SearchIndexKind::Vector,
        label: "Person".to_owned(),
        space: Some("semantic".to_owned()),
    }
}

fn artifact(backend_version: &str, dimension: u32) -> PublishedSearchArtifact {
    PublishedSearchArtifact {
        path: "store/1".to_owned(),
        manifest: SearchManifest {
            index_kind: SearchIndexKind::Vector,
            label: "Person".to_owned(),
            space: Some("semantic".to_owned()),
            properties: None,
            backend_version: backend_version.to_owned(),
            contract_version: VECTOR_CONTRACT_VERSION.to_owned(),
            dimension: Some(dimension),
            completed: true,
        },
    }
}

fn cosine(left: &[u32], right: &[u32]) -> f64 {
    let number = |bits: &u32| f64::from(f32::from_bits(*bits));
    let dot: f64 = left
        .iter()
        .zip(right)
        .map(|(a, b)| number(a) * number(b))
        .sum();
    let norm = |vector: &[u32]| -> f64 {
        vector
            .iter()
            .map(|value| number(value) * number(value))
            .sum::<f64>()
            .sqrt()
    };
    dot / (norm(left) * norm(right))
}

fn search(
    rows: &Vec<StoredVector>,
    query: &[f32],
    eligible: &[u128],
    limit: usize,
    limits: VectorStoreLimits,
) -> Result<Vec<(u128, f64)>, SearchArtifactError> {
    let query = bits(query);
    let places = admit_search(rows, &query, eligible, limit, limits)?;
    let scored = places
        .iter()
        .map(|place| ScoredNode {
            node_uuid: rows[*place].node_uuid,
            score: cosine(&rows[*place].vector, &query).to_bits(),
        })
        .collect();
    Ok(rank_hits(scored, limit)
        .iter()
        .map(|hit| (hit.node_uuid, f64::from_bits(hit.score)))
        .collect())
}

fn is_exhausted<T: std::fmt::Debug>(result: Result<T, SearchArtifactError>, wanted: &str) -> bool {
    matches!(
        result,
        Err(SearchArtifactError::ResourceExhausted { resource, .. }) if resource == wanted
    )
}

fn is_invalid<T: std::fmt::Debug>(result: Result<T, SearchArtifactError>, wanted: &str) -> bool {
    matches!(
        result,
        Err(SearchArtifactError::InvalidSelector { field, .. }) if field == wanted
    )
}

fn is_corrupt<T: std::fmt::Debug>(result: Result<T, SearchArtifactError>) -> bool {
    matches!(
        result,
        Err(SearchArtifactError::CorruptPrimaryVectors { .. })
    )
}

#[test]
fn schema_is_uuid_fixed_vector_and_utc_timestamp() {
    let schema = vector_schema(3, VectorStoreLimits::default()).unwrap();
    assert_eq!(schema.len(), 3);
    assert_eq!(schema[0].name, "node_uuid");
    assert_eq!(schema[0].kind, VectorColumnType::FixedBinary(16));
    assert_eq!(schema[1].kind, VectorColumnType::FixedVector(3));
    assert_eq!(schema[2].kind, VectorColumnType::UtcMicroseconds);
    assert!(schema.iter().all(|column| !column.nullable));
    assert!(vector_schema(0, VectorStoreLimits::default()).is_err());
}

#[test]
fn upsert_is_sorted_idempotent_and_replaces_atomically() {
    let limits = VectorStoreLimits::default();
    let mut rows = vec![row(2, &[0.0, 1.0], 20)];
    assert_eq!(
        apply_vector_upsert(&mut rows, 1, &bits(&[1.0, 0.0]), 10, limits).unwrap(),
        VectorUpsertChange::Changed
    );
    assert_eq!(
        rows.iter().map(|row| row.node_uuid).collect::<Vec<_>>(),
        vec![1, 2]
    );
    assert_eq!(
        apply_vector_upsert(&mut rows, 1, &bits(&[1.0, 0.0]), 99, limits).unwrap(),
        VectorUpsertChange::Unchanged
    );
    assert_eq!(rows[0].updated_at_micros, 10);
    assert_eq!(
        apply_vector_upsert(&mut rows, 1, &bits(&[-1.0, 0.0]), 30, limits).unwrap(),
        VectorUpsertChange::Changed
    );
    assert_eq!(rows[0], row(1, &[-1.0, 0.0], 30));
}

#[test]
fn vector_validation_rejects_dimension_nonfinite_and_zero_norm() {
    let limits = VectorStoreLimits {
        dimensions: 2,
        ..VectorStoreLimits::default()
    };
    for vector in [
        &[][..],
        &[0.0, 0.0],
        &[f32::NAN],
        &[f32::INFINITY],
        &[1.0, 2.0, 3.0],
        &[-0.0],
        &[f32::NEG_INFINITY],
    ] {
        assert!(validate_vector(&bits(vector), limits).is_err(), "{vector:?}");
    }
    assert!(validate_vector(&bits(&[3.0, 4.0]), limits).is_ok());
    assert!(validate_vector(&bits(&[f32::MIN_POSITIVE / 2.0]), limits).is_ok());
}

#[test]
fn parquet_round_trip_preserves_fixed_dimension_and_order() {
    let limits = VectorStoreLimits::default();
    let rows = vec![row(1, &[1.0, 2.0], 11), row(3, &[-3.0, 4.0], 33)];
    let columns = prepare_vector_snapshot("store", &rows, 2, limits).unwrap();
    assert_eq!(columns.values, bits(&[1.0, 2.0, -3.0, 4.0]));
    let decoded = read_vector_snapshot("store", 100, &vec![batch(&rows)], 2, limits).unwrap();
    assert_eq!(decoded, rows);
}

#[test]
fn a_snapshot_may_come_in_several_batches() {
    let limits = VectorStoreLimits::default();
    let first = vec![row(1, &[1.0], 11)];
    let second = vec![row(2, &[2.0], 22)];
    let decoded =
        read_vector_snapshot("store", 100, &vec![batch(&first), batch(&second)], 1, limits)
            .unwrap();
    assert_eq!(decoded, vec![row(1, &[1.0], 11), row(2, &[2.0], 22)]);
    let rows = || -> Vec<StoredVector> {
        (1..=5).map(|value| row(value, &[1.0, 2.0], 7)).collect()
    };
    for cuts in [vec![5], vec![1, 4], vec![0, 2, 0, 3], vec![1, 1, 1, 1, 1]] {
        let mut left = rows();
        let mut batches = Vec::new();
        for cut in cuts {
            let rest = left.split_off(cut);
            batches.push(batch(&left));
            left = rest;
        }
        assert_eq!(
            read_vector_snapshot("store", 100, &batches, 2, limits).unwrap(),
            rows()
        );
    }
}

#[test]
fn write_enforces_the_parquet_byte_limit_before_publication() {
    let limits = VectorStoreLimits {
        parquet_bytes: 1,
        ..VectorStoreLimits::default()
    };
    assert!(matches!(
        admit_snapshot_file(2, limits),
        Err(SearchArtifactError::ResourceExhausted {
            resource: "vector_parquet_bytes",
            limit: 1,
        })
    ));
    assert!(admit_snapshot_file(1, limits).is_ok());
}

#[test]
fn published_artifact_validation_and_search_use_pinned_contracts() {
    let limits = VectorStoreLimits::default();
    let rows = vec![row(1, &[1.0, 0.0], 11), row(2, &[0.0, 1.0], 22)];
    let published = artifact(VECTOR_BACKEND_VERSION, 2);
    validate_published_vectors(
        &published,
        &Ok(person_key()),
        100,
        &vec![batch(&rows)],
        "store/1/vectors.parquet",
        limits,
    )
    .unwrap();
    assert_eq!(
        published_vector_dimension(&published, &Ok(person_key())).unwrap(),
        2
    );
    let hits = search(&rows, &[1.0, 0.0], &[1, 2], 1, limits).unwrap();
    assert_eq!(hits, vec![(1, 1.0)]);
}

#[test]
fn published_reads_reject_a_mismatched_backend_contract() {
    let limits = VectorStoreLimits::default();
    let rows = vec![row(1, &[1.0], 1)];
    assert!(is_corrupt(validate_published_vectors(
        &artifact("other-backend-1", 1),
        &Ok(person_key()),
        100,
        &vec![batch(&rows)],
        "store/1/vectors.parquet",
        limits,
    )));
}

#[test]
fn atomic_upsert_publishes_reuses_replaces_and_preserves_dimension() {
    let limits = VectorStoreLimits::default();
    let update = |current: &Option<CurrentVectors>, uuid: u128, vector: &[f32], at: i64| {
        upsert_published_vector(current, &person_key(), true, uuid, &bits(vector), at, limits)
    };
    let first = vec![row(1, &[1.0, 0.0], 11)];
    assert_eq!(
        update(&None, 1, &[1.0, 0.0], 11).unwrap(),
        SearchUpdateBuild::Publish(vec![row(1, &[1.0, 0.0], 11)])
    );

    let current = Some(CurrentVectors {
        artifact: artifact(VECTOR_BACKEND_VERSION, 2),
        data_path: "store/1/vectors.parquet".to_owned(),
        file_bytes: 100,
        batches: vec![batch(&first)],
    });
    assert_eq!(
        update(&current, 1, &[1.0, 0.0], 99).unwrap(),
        SearchUpdateBuild::ReuseCurrent
    );
    assert_eq!(
        update(&current, 1, &[-1.0, 0.0], 22).unwrap(),
        SearchUpdateBuild::Publish(vec![row(1, &[-1.0, 0.0], 22)])
    );
    assert!(is_invalid(
        update(&current, 2, &[1.0, 0.0, 0.0], 33),
        "vector"
    ));
}

#[test]
fn atomic_upsert_requires_current_label_membership() {
    assert!(is_invalid(
        upsert_published_vector(
            &None,
            &person_key(),
            false,
            1,
            &bits(&[1.0]),
            1,
            VectorStoreLimits::default(),
        ),
        "node"
    ));
}

#[test]
fn cosine_keeps_negative_scores_filters_orphans_and_breaks_ties_by_uuid() {
    let rows = vec![
        row(1, &[1.0, 0.0], 1),
        row(2, &[1.0, 0.0], 2),
        row(3, &[0.0, 1.0], 3),
        row(4, &[-1.0, 0.0], 4),
    ];
    let hits = search(
        &rows,
        &[1.0, 0.0],
        &[1, 2, 4],
        10,
        VectorStoreLimits::default(),
    )
    .unwrap();
    assert_eq!(hits, vec![(1, 1.0), (2, 1.0), (4, -1.0)]);
}

#[test]
fn insertion_order_and_result_limit_do_not_change_ranking() {
    let canonical = vec![
        row(1, &[1.0, 1.0], 1),
        row(2, &[2.0, 2.0], 2),
        row(3, &[0.0, 1.0], 3),
    ];
    let hits = search(
        &canonical,
        &[1.0, 1.0],
        &[1, 2, 3],
        2,
        VectorStoreLimits::default(),
    )
    .unwrap();
    assert_eq!(
        hits.iter().map(|hit| hit.0).collect::<Vec<_>>(),
        vec![1, 2]
    );
    let scored = |uuid: u128, score: f64| ScoredNode {
        node_uuid: uuid,
        score: score.to_bits(),
    };
    let ranked = rank_hits(
        vec![scored(9, -1.0), scored(3, 0.5), scored(2, 0.5), scored(7, 2.0)],
        3,
    );
    assert_eq!(
        ranked.iter().map(|hit| hit.node_uuid).collect::<Vec<_>>(),
        vec![7, 2, 3]
    );
}

#[test]
fn malformed_primary_data_is_never_repaired_or_silently_sorted() {
    let limits = VectorStoreLimits::default();
    let duplicate = vec![row(1, &[1.0], 1), row(1, &[2.0], 2)];
    assert!(is_corrupt(search(&duplicate, &[1.0], &[1], 1, limits)));
    let unreadable = VectorBatch {
        mismatch: Some("not parquet".to_owned()),
        has_nulls: false,
        columns: encode_columns(&vec![]),
    };
    assert!(is_corrupt(read_vector_snapshot(
        "store",
        11,
        &vec![unreadable],
        1,
        limits
    )));
}

#[test]
fn limits_and_cancellation_return_no_partial_hits() {
    let rows = vec![row(1, &[1.0, 0.0], 1), row(2, &[0.0, 1.0], 2)];
    let limited = VectorStoreLimits {
        vector_cells: 3,
        ..VectorStoreLimits::default()
    };
    assert!(is_exhausted(
        search(&rows, &[1.0, 0.0], &[1, 2], 2, limited),
        "vector_cells"
    ));
}

#[test]
fn every_vector_row_search_and_persistence_limit_is_named_and_atomic() {
    let base = VectorStoreLimits::default();
    let rows = vec![row(1, &[1.0, 0.0], 1), row(2, &[0.0, 1.0], 2)];

    for (limits, resource) in [
        (
            VectorStoreLimits {
                stored_vectors: 1,
                ..base
            },
            "stored_vectors",
        ),
        (
            VectorStoreLimits {
                vector_cells: 3,
                ..base
            },
            "vector_cells",
        ),
    ] {
        assert!(is_exhausted(
            validate_rows(&rows, Some(2), limits, "<memory>"),
            resource
        ));
    }
    assert!(is_invalid(
        search(&rows, &[1.0, 0.0], &[1, 2], 0, base),
        "limit"
    ));
    assert!(is_exhausted(
        search(
            &rows,
            &[1.0, 0.0],
            &[1, 2],
            2,
            VectorStoreLimits {
                eligible_nodes: 1,
                ..base
            }
        ),
        "eligible_nodes"
    ));
    assert!(is_exhausted(
        search(
            &rows,
            &[1.0, 0.0],
            &[1, 2],
            2,
            VectorStoreLimits { results: 1, ..base }
        ),
        "search_results"
    ));

    let mut at_limit = vec![row(1, &[1.0], 1)];
    assert!(is_exhausted(
        apply_vector_upsert(
            &mut at_limit,
            2,
            &bits(&[1.0]),
            2,
            VectorStoreLimits {
                stored_vectors: 1,
                ..base
            }
        ),
        "stored_vectors"
    ));
    assert_eq!(at_limit, vec![row(1, &[1.0], 1)]);
}

#[test]
fn vector_row_validation_rejects_dimension_order_duplicate_and_zero_norm() {
    let limits = VectorStoreLimits::default();
    for (rows, fragment) in [
        (vec![row(1, &[1.0, 0.0], 1), row(2, &[1.0], 2)], "dimension"),
        (vec![row(2, &[1.0], 1), row(1, &[1.0], 2)], "not sorted"),
        (
            vec![row(1, &[1.0], 1), row(1, &[1.0], 2)],
            "duplicate node_uuid",
        ),
        (vec![row(1, &[0.0], 1)], "zero"),
    ] {
        let error = validate_rows(&rows, None, limits, "fixture").unwrap_err();
        let text = error.message();
        assert!(text.contains(fragment), "{text}");
    }
    assert!(validate_rows(&vec![], None, limits, "fixture").is_ok());
    assert!(is_invalid(validate_dimension(0, limits), "vector"));
    assert!(is_exhausted(
        validate_dimension(
            2,
            VectorStoreLimits {
                dimensions: 1,
                ..limits
            }
        ),
        "vector_dimensions"
    ));
}

#[test]
fn snapshot_read_write_failures_preserve_structured_error_kinds() {
    let limits = VectorStoreLimits {
        parquet_bytes: 1,
        ..VectorStoreLimits::default()
    };
    let rows = vec![row(1, &[1.0], 1)];
    assert!(is_exhausted(
        read_vector_snapshot("store", 2, &vec![batch(&rows)], 1, limits),
        "vector_parquet_bytes"
    ));
    let mut nulls = batch(&rows);
    nulls.has_nulls = true;
    assert!(is_corrupt(read_vector_snapshot(
        "store",
        2,
        &vec![nulls],
        1,
        VectorStoreLimits::default()
    )));
}

#[test]
fn wave10_private_vector_error_contracts_are_structured() {
    let limits = VectorStoreLimits::default();
    assert!(is_corrupt(validate_rows(
        &vec![row(1, &[1.0, 0.0], 1), row(2, &[1.0], 2)],
        Some(2),
        limits,
        "fixture"
    )));
    assert!(is_exhausted(
        checked_cells(
            2,
            2,
            VectorStoreLimits {
                vector_cells: 3,
                ..limits
            }
        ),
        "vector_cells"
    ));
    assert_eq!(checked_cells(2, 2, limits).unwrap(), 4);
}

#[test]
fn wave12_snapshot_reader_rejects_schema_row_and_query_dimension_mismatches() {
    let limits = VectorStoreLimits::default();
    let rows = vec![row(1, &[1.0, 0.0], 1)];
    let mut other_schema = batch(&rows);
    other_schema.mismatch = Some("vector schema differs from its dimension".to_owned());
    assert!(is_corrupt(read_vector_snapshot(
        "store",
        100,
        &vec![other_schema],
        1,
        limits
    )));
    let short = VectorBatch {
        mismatch: None,
        has_nulls: false,
        columns: encode_columns(&vec![row(1, &[1.0], 1)]),
    };
    assert!(is_corrupt(read_vector_snapshot(
        "store",
        100,
        &vec![short],
        2,
        limits
    )));
    assert!(is_exhausted(
        read_vector_snapshot(
            "store",
            100,
            &vec![batch(&rows)],
            2,
            VectorStoreLimits {
                stored_vectors: 0,
                ..limits
            }
        ),
        "stored_vectors"
    ));
    assert!(is_invalid(
        validate_query_dimension(&bits(&[1.0]), 2),
        "vector"
    ));
    assert!(validate_query_dimension(&bits(&[1.0, 0.0]), 2).is_ok());
}
