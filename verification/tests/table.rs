use sarnaut::bytes::{u16_at, u32_at, u64_at};
use sarnaut::table::{
    encode, key_hash, rows, validate, Row, TableError, FLAG_KEY_INDEX, FORMAT_VERSION, HEADER_BYTES,
    KEY_ENTRY_BYTES,
};

fn sample() -> Vec<Row> {
    vec![
        Row {
            key: "item.a".to_string(),
            bytes: vec![1, 2, 3],
        },
        Row {
            key: "item.b".to_string(),
            bytes: vec![4],
        },
        Row {
            key: "item.c".to_string(),
            bytes: vec![5, 6],
        },
    ]
}

#[test]
fn an_encoded_table_validates_and_reads_back() {
    let bytes = encode(2, &sample()).expect("encode");
    let view = validate(&bytes).expect("validate");
    assert_eq!(view.row_type_id, 2);
    assert_eq!(view.row_count, 3);
    assert_eq!(
        rows(&bytes).expect("rows"),
        vec![&[1u8, 2, 3][..], &[4][..], &[5, 6][..]]
    );
}

#[test]
fn the_header_is_forty_bytes_and_the_key_index_follows_it() {
    let bytes = encode(1, &sample()).expect("encode");
    assert_eq!(&bytes[..4], b"SPK1");
    assert_eq!(u16_at(&bytes, 4), FORMAT_VERSION);
    assert_eq!(u16_at(&bytes, 6), FLAG_KEY_INDEX);
    assert_eq!(u32_at(&bytes, 16), HEADER_BYTES);
    assert_eq!(u32_at(&bytes, 20), HEADER_BYTES + KEY_ENTRY_BYTES * 3);
}

#[test]
fn the_key_index_is_sorted_by_hash() {
    let bytes = encode(1, &sample()).expect("encode");
    let base = u32_at(&bytes, 16) as usize;
    let hashes: Vec<u64> = (0..3)
        .map(|index| u64_at(&bytes, base + index * KEY_ENTRY_BYTES as usize))
        .collect();
    let mut sorted = hashes.clone();
    sorted.sort_unstable();
    assert_eq!(hashes, sorted);
}

#[test]
fn unsorted_rows_are_refused() {
    let mut rows = sample();
    rows.swap(0, 2);
    let error = encode(1, &rows).expect_err("encode should refuse unsorted rows");
    assert!(error.message().contains("not sorted"), "{}", error.message());
}

#[test]
fn a_wrong_magic_is_refused() {
    let mut bytes = encode(1, &sample()).expect("encode");
    bytes[0] = b'X';
    assert!(validate(&bytes).is_err());
}

#[test]
fn a_reserved_flag_bit_is_refused() {
    let mut bytes = encode(1, &sample()).expect("encode");
    bytes[6] = 0b0000_0011;
    let error = validate(&bytes).expect_err("validate should refuse unknown flags");
    assert!(error.message().contains("reserved flag"), "{}", error.message());
}

#[test]
fn a_non_zero_reserved_field_is_refused() {
    let mut bytes = encode(1, &sample()).expect("encode");
    bytes[39] = 1;
    assert!(validate(&bytes).is_err());
}

#[test]
fn a_truncated_table_is_refused() {
    let bytes = encode(1, &sample()).expect("encode");
    let error = validate(&bytes[..bytes.len() - 1]).expect_err("validate should refuse");
    assert!(
        error.message().contains("past the 97 byte file"),
        "{}",
        error.message()
    );
}

#[test]
fn an_empty_table_round_trips() {
    let bytes = encode(3, &[]).expect("encode");
    let view = validate(&bytes).expect("validate");
    assert_eq!(view.row_count, 0);
    assert!(rows(&bytes).expect("rows").is_empty());
}

#[test]
fn reserved_flag_message_is_exact() {
    let mut bytes = encode(1, &sample()).expect("encode");
    bytes[6] = 3;
    assert_eq!(
        validate(&bytes).unwrap_err().message(),
        "table sets reserved flag bits: 0x0003"
    );
}

#[test]
fn unsorted_rows_name_both_keys() {
    let mut rows = sample();
    rows.swap(0, 2);
    let error = encode(1, &rows).unwrap_err();
    assert!(matches!(error, TableError::Unsorted { position: 0, .. }));
    assert_eq!(
        error.message(),
        "rows are not sorted by canonical id: \"item.c\" then \"item.b\""
    );
}

#[test]
fn a_row_with_no_bytes_fails_the_reader() {
    let rows = vec![
        Row { key: "a".to_string(), bytes: vec![] },
        Row { key: "b".to_string(), bytes: vec![1] },
    ];
    let bytes = encode(1, &rows).expect("encode");
    assert_eq!(
        validate(&bytes).unwrap_err(),
        TableError::RowIndexNotIncreasing { index: 1 }
    );
}

#[test]
fn key_hash_reads_the_digest_head_little_endian() {
    let digest = blake3::hash(b"item.a");
    let mut head = [0u8; 8];
    head.copy_from_slice(&digest.as_bytes()[..8]);
    assert_eq!(key_hash("item.a"), u64::from_le_bytes(head));
}

#[test]
fn a_table_layout_is_exact() {
    let bytes = encode(-2, &sample()).expect("encode");
    assert_eq!(bytes.len(), 40 + 12 * 3 + 16 + 6);
    assert_eq!(u32_at(&bytes, 8), (-2i32) as u32);
    assert_eq!(u32_at(&bytes, 24), 92);
    assert_eq!(&bytes[92..], &[1, 2, 3, 4, 5, 6]);
    assert_eq!(u32_at(&bytes, 76), 0);
    assert_eq!(u32_at(&bytes, 80), 3);
    assert_eq!(u32_at(&bytes, 84), 4);
    assert_eq!(u32_at(&bytes, 88), 6);
}

#[test]
fn a_table_with_an_empty_row_is_written_but_refused_on_reading() {
    let rows = vec![
        Row { key: "a".into(), bytes: vec![1] },
        Row { key: "b".into(), bytes: vec![] },
    ];
    let bytes = encode(3, &rows).expect("encode accepts it");
    assert!(validate(&bytes).is_err());
    assert!(sarnaut::table::rows(&bytes).is_err());
}
