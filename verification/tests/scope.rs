use sarnaut::model::{default_stance, quality_rank, SchemaKind};
use sarnaut::overlay::{layer_of, Doc, LayerEntry};
use sarnaut::scope::{document_kind, explicit_zone, out_of_scope_note, zone_from_document_id};
use sarnaut::source::{Layout, LoadOptions};

fn mapping(entries: &[(&str, &str)]) -> Doc {
    Doc::Mapping(
        entries
            .iter()
            .map(|(k, v)| (k.to_string(), Doc::Text(v.to_string())))
            .collect(),
    )
}

#[test]
fn a_documents_zone_comes_from_its_field_then_its_id() {
    assert_eq!(explicit_zone(&mapping(&[("zone", "zone.lightwood")])).as_deref(), Some("lightwood"));
    assert_eq!(explicit_zone(&mapping(&[("zone", "lightwood")])), None);
    assert_eq!(explicit_zone(&Doc::Null), None);
    assert_eq!(zone_from_document_id("mob.lightwood.wolf").as_deref(), Some("lightwood"));
    assert_eq!(zone_from_document_id("trigger.lightwood.q.a").as_deref(), Some("lightwood"));
    assert_eq!(zone_from_document_id("item.weapon.sword"), None);
    assert_eq!(zone_from_document_id("mob"), None);
}

#[test]
fn an_overlay_for_another_zone_is_skipped_with_a_note() {
    let options = LoadOptions::new("/src", Layout::Ruleset, "ruleset", Some("lightwood"));
    let note = out_of_scope_note(&options, &mapping(&[("zone", "zone.frostfall")]), "mob.lightwood.wolf");
    assert_eq!(
        note.as_deref(),
        Some("target zone frostfall is outside the selected zone lightwood; document skipped")
    );
    let note = out_of_scope_note(&options, &mapping(&[]), "quest.frostfall.q1");
    assert!(note.is_some());
    assert_eq!(out_of_scope_note(&options, &mapping(&[]), "mob.lightwood.wolf"), None);
    assert_eq!(out_of_scope_note(&options, &mapping(&[]), "item.weapon.sword"), None);
    let flat = LoadOptions::new("/src", Layout::Flat, "ruleset", Some("lightwood"));
    assert_eq!(out_of_scope_note(&flat, &mapping(&[("zone", "zone.frostfall")]), "x"), None);
    let all = LoadOptions::new("/src", Layout::Ruleset, "ruleset", None);
    assert_eq!(out_of_scope_note(&all, &mapping(&[("zone", "zone.frostfall")]), "x"), None);
}

#[test]
fn a_documents_kind_is_declared_or_read_from_its_id() {
    assert_eq!(document_kind(&mapping(&[("kind", "placement")]), "spawn.a.b"), "placement");
    assert_eq!(document_kind(&mapping(&[("kind", "")]), "spawn.a.b"), "spawn");
    assert_eq!(document_kind(&Doc::Null, "faction.empire"), "faction");
}

#[test]
fn schema_files_quality_ranks_and_stances() {
    assert_eq!(SchemaKind::LootTable.file_name(), "loot-table.schema.json");
    assert_eq!(SchemaKind::MobKind.file_name(), "mobkind.schema.json");
    assert_eq!(quality_rank("CRITTER"), Some(0));
    assert_eq!(quality_rank("RAID_BOSS"), Some(7));
    assert_eq!(quality_rank("boss"), None);
    assert_eq!(default_stance(Some(5)), "friendly");
    assert_eq!(default_stance(Some(0)), "neutral");
    assert_eq!(default_stance(None), "hostile");
}

#[test]
fn a_layer_lives_in_its_own_directory() {
    let entry = LayerEntry {
        id: "seasonal".to_string(),
        description: "Winter".to_string(),
        apply_by_default: true,
    };
    let layer = layer_of("/content/overlays", &entry);
    assert_eq!(layer.directory, "/content/overlays/seasonal");
    assert_eq!(layer.id, "seasonal");
}
