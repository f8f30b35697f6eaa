use sarnaut::loot::{find, root_element_name};
use sarnaut::loottree::LootTree;

#[test]
fn reads_the_document_element_without_parsing_the_document() {
    assert_eq!(
        root_element_name(b"<?xml version=\"1.0\"?>\n<!-- note -->\n<Root a=\"1\"/>").as_deref(),
        Some("Root")
    );
    assert_eq!(root_element_name(b"<Bare>").as_deref(), Some("Bare"));
    assert_eq!(root_element_name(b"   "), None);
}

#[test]
fn skips_a_bom_and_declarations_and_refuses_broken_names() {
    assert_eq!(
        root_element_name(b"\xEF\xBB\xBF<!DOCTYPE x><gameMechanics.Item\tb=\"2\">").as_deref(),
        Some("gameMechanics.Item")
    );
    assert_eq!(root_element_name(b"<?xml never closed"), None);
    assert_eq!(root_element_name(b"<!-- never closed"), None);
    assert_eq!(root_element_name(b"< Spaced>"), None);
    assert_eq!(root_element_name(b"<\xFF\xFE>"), None);
}

#[test]
fn find_reports_the_first_window() {
    assert_eq!(find(b"a-->b-->", 0, b"-->"), Some(1));
    assert_eq!(find(b"a-->b-->", 2, b"-->"), Some(5));
    assert_eq!(find(b"ab", 0, b"abc"), None);
}

#[test]
fn a_validated_loot_run_fails_on_dangling_item_references() {
    let mut summary = sarnaut::model::LootSummary::default();
    assert_eq!(summary.validation_failure(true), None);
    summary.dangling_items = vec!["loot.a -> item.gone".to_string(), "loot.b -> item.lost".to_string()];
    assert_eq!(summary.validation_failure(false), None);
    assert_eq!(
        summary.validation_failure(true).as_deref(),
        Some("2 loot item references resolve to no item document")
    );
}

fn loot_source(relative: &str) -> sarnaut::model::Provenance {
    sarnaut::model::Provenance {
        path: relative.to_string(),
        blake3: String::new(),
        extractor: "sarnaut-extract".to_string(),
        source_root: None,
        prototype_chain: None,
    }
}

fn read_loot(relative: &str, text: &str) -> Result<sarnaut::loottree::ExtractedLootTable, sarnaut::loottree::LootTableError> {
    let doc = sarnaut::parse::parse_document(text).expect("xml");
    sarnaut::loottree::loot_table_document(relative, &doc, loot_source(relative))
}

fn dangling(table: &sarnaut::loottree::ExtractedLootTable, index: &[&str]) -> Vec<String> {
    let index: Vec<String> = index.iter().map(|s| s.to_string()).collect();
    let mut out = Vec::new();
    sarnaut::loottree::collect_dangling(&table.root, &index, &mut out);
    out
}

#[test]
fn extracts_a_flat_and_table_and_round_trips_the_literal_chance() {
    let table = read_loot(
        "World/LootTables/Zombie/Zombie(01).xdb",
        r#"<gameMechanics.constructor.schemes.item.LootTableResource><Header><resourceId>9</resourceId></Header>
<table type="gameMechanics.constructor.schemes.item.LootTableAnd">
  <entries>
    <Item type="gameMechanics.constructor.schemes.item.LootTableMoney"><minNumber>2</minNumber><maxNumber>6</maxNumber></Item>
    <Item type="gameMechanics.constructor.schemes.item.LootTableSingleItem"><item href="/Items/Mechanics/ZombieDenture.xdb#x"/><minNumber>1</minNumber><maxNumber>1</maxNumber></Item>
  </entries>
  <chances><Item>1</Item><Item>0.00618751</Item></chances>
</table></gameMechanics.constructor.schemes.item.LootTableResource>"#,
    )
    .expect("loot table");
    assert_eq!(table.id, "loot.zombie.zombie-01");
    assert_eq!(table.resource_id, Some(9));
    assert_eq!(sarnaut::loottree::count_nodes(&table.root), 3);
    match &table.root {
        LootTree::Container { node, entries, chances } => {
            assert_eq!(node, "and");
            assert_eq!(chances, &vec!["1".to_string(), "0.00618751".to_string()]);
            assert!(matches!(entries[0], LootTree::Money { min_number: 2, max_number: 6 }));
            match &entries[1] {
                LootTree::SingleItem { item, .. } => assert_eq!(item.id.as_deref(), Some("item.mechanics.zombie-denture")),
                other => panic!("{other:?}"),
            }
        }
        other => panic!("{other:?}"),
    }
    assert!(dangling(&table, &["item.mechanics.zombie-denture"]).is_empty());
}

#[test]
fn extracts_a_nested_and_inside_an_or() {
    let table = read_loot(
        "World/LootTables/Zombie/Zombie(02).xdb",
        r#"<gameMechanics.constructor.schemes.item.LootTableResource><Header><resourceId>10</resourceId></Header>
<table type="gameMechanics.constructor.schemes.item.LootTableOr">
  <entries>
    <Item type="gameMechanics.constructor.schemes.item.LootTableAnd">
      <entries><Item type="gameMechanics.constructor.schemes.item.LootTableMoney"><minNumber>1</minNumber><maxNumber>2</maxNumber></Item></entries>
      <chances><Item>0.5</Item></chances>
    </Item>
    <Item type="gameMechanics.constructor.schemes.item.LootTableSingleItem"><item href="/Items/Mechanics/ZombieDenture.xdb#x"/><minNumber>1</minNumber><maxNumber>3</maxNumber></Item>
  </entries>
  <chances><Item>0.25</Item><Item>0.75</Item></chances>
</table></gameMechanics.constructor.schemes.item.LootTableResource>"#,
    )
    .expect("loot table");
    assert_eq!(sarnaut::loottree::count_nodes(&table.root), 4);
    match &table.root {
        LootTree::Container { node, entries, .. } => {
            assert_eq!(node, "or");
            assert!(matches!(&entries[0], LootTree::Container { node, .. } if node == "and"));
            assert!(matches!(entries[1], LootTree::SingleItem { max_number: 3, .. }));
        }
        other => panic!("{other:?}"),
    }
}

#[test]
fn an_entries_chances_length_mismatch_is_an_error() {
    let error = read_loot(
        "World/LootTables/Zombie/Zombie(03).xdb",
        r#"<gameMechanics.constructor.schemes.item.LootTableResource><Header><resourceId>11</resourceId></Header>
<table type="gameMechanics.constructor.schemes.item.LootTableAnd">
  <entries>
    <Item type="gameMechanics.constructor.schemes.item.LootTableMoney"><minNumber>1</minNumber><maxNumber>2</maxNumber></Item>
    <Item type="gameMechanics.constructor.schemes.item.LootTableSingleItem"><item href="/Items/Mechanics/ZombieDenture.xdb#x"/><minNumber>1</minNumber><maxNumber>1</maxNumber></Item>
  </entries>
  <chances><Item>1</Item></chances>
</table></gameMechanics.constructor.schemes.item.LootTableResource>"#,
    )
    .unwrap_err();
    let rendered = error.message();
    assert!(rendered.contains("2 entries but 1 chances"), "{rendered}");
}

#[test]
fn reports_a_loot_reference_to_an_item_that_is_not_in_the_tree() {
    let table = read_loot(
        "World/LootTables/Zombie/Zombie(04).xdb",
        r#"<gameMechanics.constructor.schemes.item.LootTableResource><Header><resourceId>12</resourceId></Header>
<table type="gameMechanics.constructor.schemes.item.LootTableAnd">
  <entries><Item type="gameMechanics.constructor.schemes.item.LootTableSingleItem"><item href="/Items/Mechanics/Ghost.xdb#x"/><minNumber>1</minNumber><maxNumber>1</maxNumber></Item></entries>
  <chances><Item>1</Item></chances>
</table></gameMechanics.constructor.schemes.item.LootTableResource>"#,
    )
    .expect("loot table");
    assert_eq!(dangling(&table, &["item.mechanics.zombie-denture"]), vec!["/Items/Mechanics/Ghost.xdb#x"]);
}

#[test]
fn a_document_of_another_kind_is_no_loot_table() {
    let error = read_loot("World/LootTables/Odd.xdb", r#"<gameMechanics.constructor.schemes.item.ItemResource/>"#).unwrap_err();
    assert_eq!(
        error.message(),
        "World/LootTables/Odd.xdb is a gameMechanics.constructor.schemes.item.ItemResource, not a gameMechanics.constructor.schemes.item.LootTableResource"
    );
}

#[test]
fn a_loot_table_leads_only_to_loot_tables_not_yet_seen() {
    let doc = sarnaut::parse::parse_document(
        r#"<gameMechanics.constructor.schemes.item.LootTableResource><table><a href="/World/LootTables/B.xdb#x"/><b href="/World/LootTables/A.xdb#x"/><c href="/Items/Junk/Fur.xdb#x"/></table></gameMechanics.constructor.schemes.item.LootTableResource>"#,
    )
    .expect("xml");
    let mut seen = vec!["World/LootTables/A.xdb".to_string()];
    let fresh = sarnaut::loottree::loot_followups(&doc, "/src", "/src/World/LootTables/A.xdb", &mut seen);
    assert_eq!(fresh, vec!["World/LootTables/B.xdb"]);
    assert_eq!(seen, vec!["World/LootTables/A.xdb", "World/LootTables/B.xdb"]);
}
