use sarnaut::reference::{
    bounded_slug, canonical_id_from_href, canonical_id_from_source_path, canonical_zone_slug,
    mobkind_id_from_source_path, slug, strip_xdb_suffix,
};

#[test]
fn creates_stable_english_path_ids() {
    assert_eq!(slug("GibberlingFur"), "gibberling-fur");
    assert_eq!(slug("Quest_1_10"), "quest-1-10");
    assert_eq!(
        canonical_id_from_source_path("World/Quests/InstLeague1/Quest_1_10/Quest_1_10.xdb"),
        Some("quest.inst-league1.quest-1-10".into())
    );
    assert_eq!(
        canonical_id_from_href(
            "/Items/QuestItems/Test/Test.(ItemResource).xdb#xpointer(/ItemResource)"
        ),
        Some("item.quest-items.test.test-item-resource".into())
    );
}

#[test]
fn mints_ids_for_the_creature_taxonomy_loot_and_factions() {
    assert_eq!(
        canonical_id_from_source_path(
            "Mechanics/Creatures/ZombieWarrior/ZombieWarriorStartInstKind.(MobKind).xdb"
        ),
        Some("mobkind.creatures.zombie-warrior.zombie-warrior-start-inst-kind".into())
    );
    assert_eq!(
        canonical_id_from_source_path("Mechanics/MobKindTemplates/AE1Player.xdb"),
        Some("mobkind.mob-kind-templates.ae1player".into())
    );
    assert_eq!(
        canonical_id_from_source_path("Mechanics/MobClasses/UDZombieFighter.xdb"),
        Some("mobclass.ud-zombie-fighter".into())
    );
    assert_eq!(
        canonical_id_from_source_path("Mechanics/MobQualities/Common.xdb"),
        Some("mobquality.common".into())
    );
    assert_eq!(
        canonical_id_from_source_path("World/Factions/Wild.xdb"),
        Some("faction.wild".into())
    );
    assert_eq!(
        canonical_id_from_source_path("World/Factions/ZoneLeague1/CityOrder.(Faction).xdb"),
        Some("faction.zone-league1-city-order".into())
    );
    assert_eq!(
        canonical_id_from_source_path("World/LootTables/ZombieWarrior/ZombieWarrior(01).xdb"),
        Some("loot.zombie-warrior.zombie-warrior-01".into())
    );
}

#[test]
fn leaves_neighbouring_mechanics_resources_unmapped() {
    assert_eq!(
        canonical_id_from_source_path(
            "Mechanics/Creatures/ZombieWarrior/ZombieWarriorStartInstKit.(MobAbilityKit).xdb"
        ),
        None
    );
    assert_eq!(
        canonical_id_from_source_path("Mechanics/ItemQualities/Common.xdb"),
        None
    );
}

#[test]
fn mints_markerless_character_kind_ids_only_in_typed_context() {
    let path = "Mechanics/Characters/Kania_male/ZoneLeague1/Aidenus.xdb";
    assert_eq!(canonical_id_from_source_path(path), None);
    assert_eq!(
        mobkind_id_from_source_path(path),
        Some("mobkind.characters.kania-male.zone-league1.aidenus".into())
    );
}

#[test]
fn uses_the_canonical_lightwood_zone_id_for_source_zone_league1() {
    assert_eq!(canonical_zone_slug("ZoneLeague1"), "lightwood");
    assert_eq!(
        canonical_id_from_source_path("World/Quests/ZoneLeague1/Quest_01_01/Quest_01_01.xdb"),
        Some("quest.lightwood.quest-01-01".into())
    );
    assert_eq!(
        canonical_id_from_source_path(
            "Characters/Kania_male/Instances/ZoneLeague1/Forester.(MobWorld).xdb"
        ),
        Some("mob.lightwood.kania-male.forester".into())
    );
}

#[test]
fn slug_splits_acronyms_and_drops_punctuation() {
    assert_eq!(slug("UDZombieFighter"), "ud-zombie-fighter");
    assert_eq!(slug("__Hello  World__"), "hello-world");
    assert_eq!(slug("Костёр"), "");
    assert_eq!(slug("AE1Player"), "ae1player");
}

#[test]
fn spawn_tables_and_backslashes_map_like_slashes() {
    assert_eq!(
        canonical_id_from_source_path("Maps\\TestMap\\SpawnTables\\ZoneLeague1\\Wolves.xdb"),
        Some("spawn.lightwood.table.wolves".into())
    );
    assert_eq!(canonical_id_from_source_path(""), None);
    assert_eq!(canonical_id_from_href("#only-a-fragment"), None);
}

#[test]
fn strips_the_resource_marker_and_xdb_suffix() {
    assert_eq!(strip_xdb_suffix("Test.(ItemResource).xdb"), "Test");
    assert_eq!(strip_xdb_suffix("Plain.xdb"), "Plain");
    assert_eq!(strip_xdb_suffix("Plain"), "Plain");
}

#[test]
fn over_long_slugs_are_shortened_with_a_digest() {
    let short = "a".repeat(120);
    assert_eq!(bounded_slug(&short, 120), short);
    let long = format!("{}-{}", "b".repeat(106), "c".repeat(30));
    let bounded = bounded_slug(&long, 120);
    let hash = blake3::hash(long.as_bytes()).to_hex();
    assert_eq!(bounded, format!("{}-{}", "b".repeat(106), &hash[..12]));
    assert_eq!(bounded.len(), 119);
}
