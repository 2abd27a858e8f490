use graphforge_storage::identity_codec::{encoded, layout, read, take, EDGE_WIDTH, WIDTH};

#[test]
fn full_width_nodes_and_tombstones_and_zero_edge_round_trip() {
    for kind in 0..=3 {
        for surrogate in [0, 1, u64::from(u32::MAX), u64::from(u32::MAX) + 1, u64::MAX] {
            let mut record = [u8::MAX; WIDTH];
            record[16] = kind;
            record[17..].copy_from_slice(&surrogate.to_be_bytes());
            if kind == 1 && surrogate != 0 {
                assert!(encoded(&record).is_err());
                continue;
            }
            let bytes = encoded(&record).unwrap();
            assert_eq!(bytes.len(), if kind == 1 { EDGE_WIDTH } else { WIDTH });
            assert_eq!(read(&mut &bytes[..]).unwrap(), Some(record));
        }
    }
}

#[test]
fn partial_records_unknown_kinds_and_cross_block_records_fail_closed() {
    for kind in 0..=3 {
        let mut record = [0_u8; WIDTH];
        record[16] = kind;
        let bytes = encoded(&record).unwrap();
        for length in 1..bytes.len() {
            assert!(read(&mut &bytes[..length]).is_err());
            assert!(layout(&bytes[..length]).is_err());
        }
        assert_eq!(layout(bytes).unwrap().0, 1);
    }
    let mut invalid = [0_u8; WIDTH];
    invalid[16] = 4;
    assert!(encoded(&invalid).is_err());
    assert!(read(&mut &invalid[..]).is_err());
    assert!(layout(&invalid).is_err());
    assert_eq!(read(&mut &[][..]).unwrap(), None);
}

#[test]
fn mixed_records_have_exact_budget_and_ordered_fences() {
    let mut bytes = Vec::new();
    for i in 0..69_634_u64 {
        let mut record = [0_u8; WIDTH];
        record[..16].copy_from_slice(&u128::from(i + 1).to_be_bytes());
        record[16] = u8::from(i >= 4097);
        if record[16] == 0 {
            record[17..].copy_from_slice(&(i + 1).to_be_bytes());
        }
        bytes.extend_from_slice(encoded(&record).unwrap());
    }
    assert_eq!(bytes.len(), 1_216_554);
    assert_eq!(layout(&bytes).unwrap().0, 69_634);
    let mut input = bytes.as_slice();
    for i in 0..69_634_u64 {
        let record = take(&mut input).unwrap().unwrap();
        assert_eq!(&record[..16], &(u128::from(i) + 1).to_be_bytes());
        assert_eq!(
            u64::from_be_bytes(record[17..].try_into().unwrap()),
            if i < 4097 { i + 1 } else { 0 }
        );
    }
    assert!(input.is_empty());
}

#[test]
fn a_failed_read_uses_up_what_it_looked_at() {
    let mut unknown = [9_u8; 30];
    unknown[16] = 7;
    let mut input: &[u8] = &unknown;
    assert!(read(&mut input).is_err());
    assert_eq!(input, &unknown[17..]);

    let mut cut = [1_u8; 20];
    cut[16] = 0;
    let mut input: &[u8] = &cut;
    assert!(read(&mut input).is_err());
    assert!(input.is_empty());

    let mut input: &[u8] = &cut[..5];
    assert!(take(&mut input).is_err());
    assert!(input.is_empty());
}
