use sarnaut::pack::{pack_id, verify_pack, Builder, Contracts, Manifest, Source, TableEntry, VerifyError};
use sarnaut::table::{encode, Row};

fn expected_pack_id(tables: &[(String, Vec<u8>)]) -> String {
    let mut ordered: Vec<&(String, Vec<u8>)> = tables.iter().collect();
    ordered.sort_by(|a, b| a.0.as_bytes().cmp(b.0.as_bytes()));
    let mut hasher = blake3::Hasher::new();
    for (name, bytes) in ordered {
        hasher.update(&(name.len() as u32).to_le_bytes());
        hasher.update(name.as_bytes());
        hasher.update(&(bytes.len() as u64).to_le_bytes());
        hasher.update(bytes);
    }
    hasher.finalize().to_hex().to_string()
}

#[test]
fn pack_id_frames_tables_in_name_order() {
    let a = vec![("mobs".to_string(), vec![1u8, 2, 3]), ("items".to_string(), vec![9u8])];
    let b = vec![("items".to_string(), vec![9u8]), ("mobs".to_string(), vec![1u8, 2, 3])];
    assert_eq!(pack_id(&a), pack_id(&b));
    assert_eq!(pack_id(&a), expected_pack_id(&a));
    // Moving a byte between tables changes the framing and the id.
    let c = vec![("items".to_string(), vec![9u8, 1]), ("mobs".to_string(), vec![2u8, 3])];
    assert_ne!(pack_id(&a), pack_id(&c));
}

const CATALOG: &str = "5e2bcd1f5e2bcd1f5e2bcd1f5e2bcd1f5e2bcd1f5e2bcd1f5e2bcd1f5e2bcd1f";

fn manifest_for(bytes: &[u8], id: &str) -> Manifest {
    Manifest {
        schema_version: 2,
        ruleset: "classic".into(),
        zone: "harbour".into(),
        pack_id: id.into(),
        builder: Builder { name: "b".into(), version: "1".into() },
        source: Source { repo: "r".into(), commit: "c".into(), overlays: vec![] },
        keep_extra: false,
        contracts: Contracts { bag_layout_catalog_blake3: CATALOG.to_string() },
        tables: vec![TableEntry {
            name: "mobs".into(),
            file: "tables/mobs.sptbl".into(),
            row_type: "ROW_TYPE_MOB".into(),
            rows: 1,
            bytes: bytes.len() as u64,
            blake3: blake3::hash(bytes).to_hex().to_string(),
        }],
    }
}

#[test]
fn a_consistent_pack_verifies_and_a_flipped_byte_does_not() {
    let bytes = encode(7, &[Row { key: "mob.a".into(), bytes: vec![1, 2] }]).expect("encode");
    let id = pack_id(&[("mobs".to_string(), bytes.clone())]);
    let manifest = manifest_for(&bytes, &id);
    let known = vec![(7, "ROW_TYPE_MOB".to_string())];
    let files = vec!["mobs.sptbl".to_string()];
    let report = verify_pack(&manifest, CATALOG, &vec![bytes.clone()], Some(&files), &known).expect("verifies");
    assert_eq!(report.tables, vec![("mobs".to_string(), 1)]);

    let mut flipped = bytes.clone();
    let last = flipped.len() - 1;
    flipped[last] ^= 1;
    match verify_pack(&manifest, CATALOG, &vec![flipped], Some(&files), &known) {
        Err(error @ VerifyError::DigestMismatch { .. }) => {
            let message = error.message();
            assert!(message.contains("mobs") && message.contains("digest mismatch"), "{message}");
        }
        other => panic!("unexpected {other:?}"),
    }
    let stray = vec!["mobs.sptbl".to_string(), "stowaway.sptbl".to_string()];
    match verify_pack(&manifest, CATALOG, &vec![bytes.clone()], Some(&stray), &known) {
        Err(error) => assert_eq!(error.message(), "pack holds tables/stowaway.sptbl, which the manifest does not list"),
        other => panic!("unexpected {other:?}"),
    }
    let mut future = manifest_for(&bytes, &id);
    future.schema_version = 3;
    assert!(verify_pack(&future, CATALOG, &vec![bytes.clone()], None, &known).unwrap_err().message().contains("schema_version"));
    let rewritten = manifest_for(&bytes, &"0".repeat(64));
    assert!(verify_pack(&rewritten, CATALOG, &vec![bytes.clone()], None, &known).unwrap_err().message().contains("pack_id mismatch"));
    let unknown = verify_pack(&manifest, CATALOG, &vec![bytes], None, &vec![]).unwrap_err();
    assert_eq!(unknown.message(), "table mobs declares unknown row_type_id 7");
}

#[test]
fn a_pack_id_does_not_depend_on_the_listing_order() {
    let a = vec![
        ("mobs".to_string(), vec![1u8, 2, 3]),
        ("items".to_string(), vec![4u8]),
        ("zones".to_string(), Vec::new()),
    ];
    let mut b = a.clone();
    b.reverse();
    assert_eq!(pack_id(&a), pack_id(&b));
    let mut c = a.clone();
    c[0].1.push(9);
    assert_ne!(pack_id(&a), pack_id(&c));
}

#[test]
fn a_foreign_bag_layout_catalog_is_rejected() {
    let bytes = encode(7, &[Row { key: "mob.a".into(), bytes: vec![1, 2] }]).expect("encode");
    let id = pack_id(&[("mobs".to_string(), bytes.clone())]);
    let mut manifest = manifest_for(&bytes, &id);
    manifest.contracts.bag_layout_catalog_blake3 = "0".repeat(64);
    let known = vec![(7, "ROW_TYPE_MOB".to_string())];
    let error = verify_pack(&manifest, CATALOG, &vec![bytes], None, &known).expect_err("a foreign catalog is refused");
    assert!(matches!(error, VerifyError::CatalogMismatch { .. }));
    assert!(error.message().contains("bag-layout catalog contract mismatch"), "{}", error.message());
}

#[test]
fn a_pack_id_is_sixty_four_lowercase_hex_digits() {
    let id = pack_id(&[("mobs".to_string(), vec![1u8, 2, 3])]);
    assert_eq!(id.len(), 64);
    assert!(id.bytes().all(|b| b.is_ascii_digit() || (b'a'..=b'f').contains(&b)));
}
