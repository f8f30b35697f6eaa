use sarnaut::compile::{pack_keys, BuildError};
use sarnaut::source::{
    AbilityDocument, ChargenDocument, FactionDocument, ItemDocument, LocRef, LootNodeDocument, LootTableDocument,
    MobDocument, ObjectRef, PlacementDocument, Provenance, SourcePlacement, SourceTableEntry, SourceTree,
    SpawnTableDocument,
};

fn object(id: &str) -> ObjectRef {
    ObjectRef { id: Some(id.to_string()) }
}

fn leaf(item: &str) -> LootNodeDocument {
    LootNodeDocument { node: "single-item".into(), entries: vec![], item: Some(object(item)), min_number: Some(1), max_number: Some(2) }
}

fn container(entries: Vec<LootNodeDocument>) -> LootNodeDocument {
    LootNodeDocument { node: "or".into(), entries, item: None, min_number: None, max_number: None }
}

fn mob(id: &str, faction: &str, ability: &str) -> MobDocument {
    MobDocument {
        id: id.into(),
        zone: "zone.harbour-watch".into(),
        loc_ref: LocRef::default(),
        mob_kind: None,
        quality: None,
        faction: Some(object(faction)),
        loot_table: None,
        abilities: vec![object(ability)],
        quests: vec![],
        source: Provenance::default(),
    }
}

fn tree() -> SourceTree {
    SourceTree {
        placement_documents: vec![PlacementDocument {
            id: "spawn.harbour-watch.placement.quay".into(),
            zone: "zone.harbour-watch".into(),
            placements: vec![
                SourcePlacement { id: "spawn.harbour-watch.placement.quay.2".into(), object: object("spawn.harbour-watch.table.sparrows"), route: None },
                SourcePlacement { id: "spawn.harbour-watch.placement.quay.1".into(), object: object("mob.harbour-watch.gull"), route: None },
            ],
        }],
        tables: vec![SpawnTableDocument {
            id: "spawn.harbour-watch.table.sparrows".into(),
            zone: "zone.harbour-watch".into(),
            entries: vec![SourceTableEntry { object: object("mob.harbour-watch.sparrow") }],
        }],
        abilities: vec![AbilityDocument { id: "ability.melee.cleave".into(), loc_ref: LocRef::default(), source: Provenance::default() }],
        factions: vec![FactionDocument { id: "faction.wild".into(), loc_ref: LocRef::default(), relations: vec![], source: Provenance::default() }],
        mobs: vec![mob("mob.harbour-watch.sparrow", "faction.wild", "ability.melee.cleave")],
        chargen_options: vec![ChargenDocument {
            id: "chargen.league.warrior".into(),
            faction: "faction.league".into(),
            loc_ref: LocRef::default(),
            spawn_zone: "zone.harbour-watch".into(),
            starting_loadout: vec![],
            starting_abilities: vec![],
            starting_quests: vec![],
            source: Provenance::default(),
        }],
        items: vec![ItemDocument { id: "item.junk.harbour-shell".into(), loc_ref: LocRef::default(), source: Provenance::default() }],
        loot_tables: vec![LootTableDocument {
            id: "loot.fixture.nested".into(),
            root: container(vec![container(vec![leaf("item.junk.harbour-shell")])]),
        }],
        ..SourceTree::default()
    }
}

#[test]
fn a_clean_tree_gives_each_table_its_keys_in_id_order() {
    let keys = pack_keys(&tree(), Some("harbour-watch")).expect("clean");
    assert_eq!(keys.zone_id, "zone.harbour-watch");
    assert_eq!(keys.zone_slug, "harbour-watch");
    assert_eq!(keys.placements, vec!["spawn.harbour-watch.placement.quay.1", "spawn.harbour-watch.placement.quay.2"]);
    assert_eq!(keys.spawn_tables, vec!["spawn.harbour-watch.table.sparrows"]);
    assert_eq!(keys.mobs, vec!["mob.harbour-watch.sparrow"]);
    assert_eq!(keys.loot_tables, vec!["loot.fixture.nested"]);
}

#[test]
fn the_zone_comes_from_the_documents_or_the_request() {
    assert_eq!(pack_keys(&tree(), None).expect("clean").zone_id, "zone.harbour-watch");
    match pack_keys(&tree(), Some("tide-steps")) {
        Err(BuildError::ZoneMismatch { declared, requested }) => {
            assert_eq!(declared, "zone.harbour-watch");
            assert_eq!(requested, "zone.tide-steps");
        }
        other => panic!("{other:?}"),
    }
    let mut mixed = tree();
    mixed.tables[0].zone = "zone.tide-steps".into();
    assert!(matches!(pack_keys(&mixed, None), Err(BuildError::MixedZones { .. })));
    let mut bare = tree();
    bare.placement_documents.clear();
    bare.tables.clear();
    assert!(matches!(pack_keys(&bare, None), Err(BuildError::NoZone)));
    assert!(matches!(pack_keys(&bare, Some("harbour-watch")), Err(BuildError::NoPlacements)));
}

#[test]
fn a_repeated_id_is_refused_under_its_table() {
    let mut t = tree();
    t.abilities.push(AbilityDocument { id: "ability.melee.cleave".into(), loc_ref: LocRef::default(), source: Provenance::default() });
    match pack_keys(&t, None) {
        Err(BuildError::DuplicateId { table, id }) => {
            assert_eq!(table, "ability");
            assert_eq!(id, "ability.melee.cleave");
        }
        other => panic!("{other:?}"),
    }
}

#[test]
fn a_placement_must_name_a_mob_or_a_spawn_table_of_the_pack() {
    let mut t = tree();
    t.placement_documents[0].placements[0].object = object("spawn.harbour-watch.table.absent");
    match pack_keys(&t, None) {
        Err(BuildError::UnknownObject { placement, object }) => {
            assert_eq!(placement, "spawn.harbour-watch.placement.quay.2");
            assert_eq!(object, "spawn.harbour-watch.table.absent");
        }
        other => panic!("{other:?}"),
    }
    let mut t = tree();
    t.tables[0].entries[0].object = ObjectRef { id: None };
    assert!(matches!(pack_keys(&t, None), Err(BuildError::NoObjectId { .. })));
}

#[test]
fn a_mob_must_name_a_carried_faction_and_carried_abilities() {
    let mut t = tree();
    t.mobs[0] = mob("mob.harbour-watch.sparrow", "faction.absent", "ability.melee.cleave");
    assert!(matches!(pack_keys(&t, None), Err(BuildError::UnknownFaction { faction, .. }) if faction == "faction.absent"));
    let mut t = tree();
    t.mobs[0] = mob("mob.harbour-watch.sparrow", "", "ability.melee.absent");
    assert!(matches!(pack_keys(&t, None), Err(BuildError::UnknownAbility { ability, .. }) if ability == "ability.melee.absent"));
}

#[test]
fn a_chargen_option_must_spawn_into_a_canonical_zone() {
    let mut t = tree();
    t.chargen_options[0].spawn_zone = "harbour-watch".into();
    assert!(matches!(pack_keys(&t, None), Err(BuildError::BadSpawnZone { .. })));
}

#[test]
fn loot_trees_are_checked_for_shape_and_grants() {
    let problem = |root: LootNodeDocument| {
        let mut t = tree();
        t.loot_tables[0].root = root;
        match pack_keys(&t, None) {
            Err(BuildError::BadLootNode { table, problem }) => {
                assert_eq!(table, "loot.fixture.nested");
                problem
            }
            other => panic!("{other:?}"),
        }
    };
    assert_eq!(problem(container(vec![leaf("item.junk.absent")])), "grants item.junk.absent, which this pack does not carry as an item");
    assert_eq!(problem(container(vec![])), "a container has no entries");
    let mut money = leaf("item.junk.harbour-shell");
    money.node = "money".into();
    assert_eq!(problem(money), "a money leaf carries an item reference");
    let mut reversed = leaf("item.junk.harbour-shell");
    reversed.min_number = Some(3);
    assert_eq!(problem(reversed), "a leaf declares max_number below min_number");
    let mut odd = leaf("item.junk.harbour-shell");
    odd.node = "some".into();
    assert_eq!(problem(odd), "unknown node type some");
    let mut deep = leaf("item.junk.harbour-shell");
    for _ in 0..9 {
        deep = container(vec![deep]);
    }
    assert_eq!(problem(deep), "a container nests deeper than 8 levels");
}
