use sarnaut::assemble::{assemble_pack, BuildTable};
use sarnaut::pack::pack_id;
use sarnaut::table::{rows, validate, Row, TableError};

fn row(key: &str, bytes: &[u8]) -> Row {
    Row { key: key.to_string(), bytes: bytes.to_vec() }
}

fn tables() -> Vec<BuildTable> {
    vec![
        BuildTable { name: "zone".into(), row_type: 1, row_type_name: "ROW_TYPE_ZONE".into(), rows: vec![row("zone.harbour-watch", b"z")] },
        BuildTable {
            name: "mobs".into(),
            row_type: 6,
            row_type_name: "ROW_TYPE_MOB".into(),
            rows: vec![row("mob.harbour-watch.gull", b"g"), row("mob.harbour-watch.sparrow", b"sp")],
        },
    ]
}

#[test]
fn tables_are_serialised_in_order_and_listed_by_name() {
    let pack = assemble_pack(tables()).expect("assembled");
    assert_eq!(pack.tables.len(), 2);
    assert_eq!(pack.tables[0].0, "zone");
    let view = validate(&pack.tables[1].1).expect("valid");
    assert_eq!(view.row_count, 2);
    assert_eq!(rows(&pack.tables[1].1).expect("rows"), vec![b"g".to_vec(), b"sp".to_vec()]);
    let names: Vec<&str> = pack.entries.iter().map(|e| e.name.as_str()).collect();
    assert_eq!(names, vec!["mobs", "zone"]);
    let mobs = &pack.entries[0];
    assert_eq!(mobs.file, "tables/mobs.sptbl");
    assert_eq!(mobs.row_type, "ROW_TYPE_MOB");
    assert_eq!(mobs.rows, 2);
    assert_eq!(mobs.bytes, pack.tables[1].1.len() as u64);
    assert_eq!(mobs.blake3, blake3::hash(&pack.tables[1].1).to_hex().to_string());
    assert_eq!(pack.pack_id, pack_id(&pack.tables));
}

#[test]
fn two_assemblies_of_the_same_tables_are_byte_identical() {
    let first = assemble_pack(tables()).expect("assembled");
    let second = assemble_pack(tables()).expect("assembled");
    assert_eq!(first.tables, second.tables);
    assert_eq!(first.pack_id, second.pack_id);
}

#[test]
fn unsorted_rows_are_refused_as_serialising_refuses_them() {
    let mut t = tables();
    t[1].rows.reverse();
    match assemble_pack(t) {
        Err(TableError::Unsorted { position, first, second }) => {
            assert_eq!(position, 0);
            assert_eq!(first, "mob.harbour-watch.sparrow");
            assert_eq!(second, "mob.harbour-watch.gull");
        }
        other => panic!("{other:?}"),
    }
}
