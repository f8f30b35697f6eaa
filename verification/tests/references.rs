//! One broken edge per test, over an in-memory harbour-watch tree; each
//! refusal names both the document that made the reference and the id it
//! could not resolve.

use sarnaut::refs::{check, require_locale, LocaleIndex, ReferenceReport, Universe};
use sarnaut::source::{
    AbilityDocument, ChargenDocument, FactionDocument, FactionRelationDocument, ItemDocument, LocRef,
    LocaleDocument, LocaleEntryDocument, LootNodeDocument, LootTableDocument, MobDocument, MobKindDocument,
    ObjectRef, PlacementDocument, Provenance, QuestDocument, QuestObjectiveDocument, QuestPrerequisiteDocument,
    QuestRewardItemDocument, QuestRewardsDocument, RouteDocument, SourceLoadoutEntry, SourcePlacement,
    SourceTableEntry, SourceTree, SpawnTableDocument, TaxonomyKind, ZoneDocument,
};

fn object(id: &str) -> ObjectRef {
    ObjectRef { id: Some(id.to_string()) }
}

fn named(name: &str) -> LocRef {
    LocRef { name: Some(name.to_string()), ..LocRef::default() }
}

fn mob(id: &str, name: &str) -> MobDocument {
    MobDocument {
        id: id.into(),
        zone: "zone.harbour-watch".into(),
        loc_ref: named(name),
        mob_kind: Some(object("mobkind.base.harbour")),
        quality: Some(object("mobquality.common")),
        faction: Some(object("faction.wild")),
        loot_table: Some(object("loot.fixture.nested")),
        abilities: vec![object("ability.melee.cleave")],
        quests: vec![],
        source: Provenance::default(),
    }
}

fn taxonomy(id: &str, kind: TaxonomyKind) -> MobKindDocument {
    MobKindDocument {
        id: id.into(),
        taxonomy: Some(kind),
        loc_ref: LocRef::default(),
        prototype: None,
        mob_class: None,
        quality: None,
        source: Provenance::default(),
    }
}

fn leaf(item: &str) -> LootNodeDocument {
    LootNodeDocument { node: "single-item".into(), entries: vec![], item: Some(object(item)), min_number: Some(1), max_number: Some(1) }
}

/// The harbour-watch tree with every edge resolved.
fn harbour() -> SourceTree {
    let mut kind = taxonomy("mobkind.base.harbour", TaxonomyKind::Kind);
    kind.mob_class = Some(object("mobclass.beast"));
    SourceTree {
        zones: vec![ZoneDocument { id: "zone.harbour-watch".into(), loc_ref: LocRef::default(), source: Provenance::default() }],
        placement_documents: vec![PlacementDocument {
            id: "spawn.harbour-watch.placements.quay".into(),
            zone: "zone.harbour-watch".into(),
            placements: vec![
                SourcePlacement {
                    id: "spawn.harbour-watch.placement.quay.1".into(),
                    object: object("spawn.harbour-watch.table.sparrows"),
                    route: Some("route.harbour-watch.quay".into()),
                },
                SourcePlacement { id: "spawn.harbour-watch.placement.quay.2".into(), object: object("mob.harbour-watch.gull"), route: None },
            ],
        }],
        tables: vec![SpawnTableDocument {
            id: "spawn.harbour-watch.table.sparrows".into(),
            zone: "zone.harbour-watch".into(),
            entries: vec![SourceTableEntry { object: object("mob.harbour-watch.sparrow") }],
        }],
        mobs: vec![mob("mob.harbour-watch.gull", "Gull.Name.txt"), mob("mob.harbour-watch.sparrow", "Sparrow.Name.txt")],
        mob_kinds: vec![
            kind,
            taxonomy("mobclass.beast", TaxonomyKind::Class),
            taxonomy("mobquality.common", TaxonomyKind::Quality),
        ],
        abilities: vec![AbilityDocument { id: "ability.melee.cleave".into(), loc_ref: LocRef::default(), source: Provenance::default() }],
        factions: vec![
            FactionDocument {
                id: "faction.wild".into(),
                loc_ref: LocRef::default(),
                relations: vec![FactionRelationDocument { faction: "faction.league".into(), stance: "hostile".into() }],
                source: Provenance::default(),
            },
            FactionDocument { id: "faction.league".into(), loc_ref: LocRef::default(), relations: vec![], source: Provenance::default() },
        ],
        chargen_options: vec![ChargenDocument {
            id: "chargen.league.warrior".into(),
            faction: "faction.league".into(),
            loc_ref: LocRef::default(),
            spawn_zone: "zone.harbour-watch".into(),
            starting_loadout: vec![SourceLoadoutEntry { item_id: "item.consumable.harbour-tonic".into(), quantity: 1, slot: "bag".into() }],
            starting_abilities: vec!["ability.melee.cleave".into()],
            starting_quests: vec!["quest.harbour-watch.first".into()],
            source: Provenance::default(),
        }],
        items: vec![
            ItemDocument { id: "item.consumable.harbour-tonic".into(), loc_ref: LocRef::default(), source: Provenance::default() },
            ItemDocument { id: "item.junk.harbour-shell".into(), loc_ref: LocRef::default(), source: Provenance::default() },
        ],
        loot_tables: vec![LootTableDocument {
            id: "loot.fixture.nested".into(),
            root: LootNodeDocument {
                node: "and".into(),
                entries: vec![LootNodeDocument {
                    node: "or".into(),
                    entries: vec![leaf("item.junk.harbour-shell"), leaf("item.consumable.harbour-tonic")],
                    item: None,
                    min_number: None,
                    max_number: None,
                }],
                item: None,
                min_number: None,
                max_number: None,
            },
        }],
        quests: vec![
            QuestDocument {
                id: "quest.harbour-watch.first".into(),
                zone: "zone.harbour-watch".into(),
                loc_ref: LocRef::default(),
                starter: Some(object("mob.harbour-watch.gull")),
                finisher: Some(object("mob.harbour-watch.gull")),
                prerequisites: vec![QuestPrerequisiteDocument { quest: object("quest.harbour-watch.before"), status: None }],
                objectives: vec![QuestObjectiveDocument {
                    objective_id: "quest.harbour-watch.first.objective.1".into(),
                    kind: "quest-count-kill".into(),
                    targets: vec![object("mob.harbour-watch.sparrow")],
                }],
                rewards: QuestRewardsDocument {
                    experience: 8,
                    mandatory_items: vec![QuestRewardItemDocument { item: object("item.junk.harbour-shell"), count: 1, hidden: false }],
                    ..QuestRewardsDocument::default()
                },
                source: Provenance::default(),
            },
            QuestDocument {
                id: "quest.harbour-watch.before".into(),
                zone: "zone.harbour-watch".into(),
                loc_ref: LocRef::default(),
                starter: None,
                finisher: None,
                prerequisites: vec![],
                objectives: vec![],
                rewards: QuestRewardsDocument::default(),
                source: Provenance::default(),
            },
        ],
        routes: vec![RouteDocument { id: "route.harbour-watch.quay".into(), zone: "zone.harbour-watch".into() }],
        locales: vec![LocaleDocument {
            id: "locale.en".into(),
            language: "en".into(),
            entries: vec![
                LocaleEntryDocument { key: "Gull.Name.txt".into(), text: "Gull".into() },
                LocaleEntryDocument { key: "Sparrow.Name.txt".into(), text: "Sparrow".into() },
            ],
        }],
        ..SourceTree::default()
    }
}

fn report(tree: &SourceTree) -> ReferenceReport {
    check(tree, &Universe::of(tree, "harbour-watch"), &LocaleIndex::build(&tree.locales))
}

/// Checks the tree after `mutate` has broken one edge, and returns the
/// failure message.
fn refuse(mutate: impl FnOnce(&mut SourceTree)) -> String {
    let mut tree = harbour();
    mutate(&mut tree);
    let report = report(&tree);
    assert!(!report.is_clean(), "the checker should refuse a dangling reference");
    report.failure_message()
}

fn assert_names_both(message: &str, referencer: &str, target: &str) {
    assert!(message.contains(referencer), "message does not name the referencing document {referencer}: {message}");
    assert!(message.contains(target), "message does not name the missing target {target}: {message}");
}

fn mob_named<'a>(tree: &'a mut SourceTree, id: &str) -> &'a mut MobDocument {
    tree.mobs.iter_mut().find(|m| m.id == id).expect("mob")
}

#[test]
fn a_clean_tree_resolves_every_edge() {
    let report = report(&harbour());
    assert!(report.is_clean(), "{}", report.failure_message());
    assert!(report.resolved > 20, "the fixture should exercise more than a handful of edges, got {}", report.resolved);
}

#[test]
fn a_placement_naming_no_mob_or_table_is_refused() {
    let message = refuse(|t| t.placement_documents[0].placements[1].object = object("mob.harbour-watch.ghost"));
    assert_names_both(&message, "spawn.harbour-watch.placement.quay.2", "mob.harbour-watch.ghost");
}

#[test]
fn a_placement_naming_no_route_is_refused() {
    let message = refuse(|t| t.placement_documents[0].placements[0].route = Some("route.harbour-watch.nowhere".into()));
    assert_names_both(&message, "spawn.harbour-watch.placement.quay.1", "route.harbour-watch.nowhere");
}

#[test]
fn a_spawn_table_naming_no_mob_is_refused() {
    let message = refuse(|t| t.tables[0].entries[0].object = object("mob.harbour-watch.wren"));
    assert_names_both(&message, "spawn.harbour-watch.table.sparrows", "mob.harbour-watch.wren");
}

#[test]
fn a_mob_naming_no_mob_kind_is_refused() {
    let message = refuse(|t| mob_named(t, "mob.harbour-watch.sparrow").mob_kind = Some(object("mobkind.base.absent")));
    assert_names_both(&message, "mob.harbour-watch.sparrow", "mobkind.base.absent");
}

#[test]
fn a_mob_naming_no_quality_is_refused() {
    let message = refuse(|t| mob_named(t, "mob.harbour-watch.sparrow").quality = Some(object("mobquality.legendary")));
    assert_names_both(&message, "mob.harbour-watch.sparrow", "mobquality.legendary");
}

#[test]
fn a_mob_naming_no_loot_table_is_refused() {
    let message = refuse(|t| mob_named(t, "mob.harbour-watch.sparrow").loot_table = Some(object("loot.fixture.absent")));
    assert_names_both(&message, "mob.harbour-watch.sparrow", "loot.fixture.absent");
}

#[test]
fn a_mob_naming_no_ability_is_refused() {
    let message = refuse(|t| mob_named(t, "mob.harbour-watch.sparrow").abilities = vec![object("ability.melee.absent")]);
    assert_names_both(&message, "mob.harbour-watch.sparrow", "ability.melee.absent");
}

#[test]
fn a_mob_offering_no_quest_is_refused() {
    let message = refuse(|t| mob_named(t, "mob.harbour-watch.sparrow").quests = vec![object("quest.harbour-watch.absent")]);
    assert_names_both(&message, "mob.harbour-watch.sparrow", "quest.harbour-watch.absent");
}

#[test]
fn a_mob_kind_naming_no_prototype_is_refused() {
    let message = refuse(|t| t.mob_kinds[0].prototype = Some(object("mobkind.base.absent")));
    assert_names_both(&message, "mobkind.base.harbour", "mobkind.base.absent");
}

#[test]
fn a_mob_kind_naming_no_class_is_refused() {
    let message = refuse(|t| t.mob_kinds[0].mob_class = Some(object("mobclass.absent")));
    assert_names_both(&message, "mobkind.base.harbour", "mobclass.absent");
}

#[test]
fn a_faction_naming_no_faction_is_refused() {
    let message = refuse(|t| {
        t.factions[0].relations.push(FactionRelationDocument { faction: "faction.absent".into(), stance: "hostile".into() })
    });
    assert_names_both(&message, "faction.wild", "faction.absent");
}

#[test]
fn a_quest_naming_no_starter_is_refused() {
    let message = refuse(|t| t.quests[0].starter = Some(object("mob.harbour-watch.absent")));
    assert_names_both(&message, "quest.harbour-watch.first", "mob.harbour-watch.absent");
}

#[test]
fn a_quest_naming_no_finisher_is_refused() {
    let message = refuse(|t| t.quests[0].finisher = Some(object("mob.harbour-watch.absent")));
    assert_names_both(&message, "quest.harbour-watch.first", "mob.harbour-watch.absent");
}

#[test]
fn a_quest_naming_no_prerequisite_is_refused() {
    let message = refuse(|t| t.quests[0].prerequisites[0].quest = object("quest.harbour-watch.absent"));
    assert_names_both(&message, "quest.harbour-watch.first", "quest.harbour-watch.absent");
}

#[test]
fn a_quest_objective_naming_no_target_is_refused() {
    let message = refuse(|t| t.quests[0].objectives[0].targets = vec![object("mob.harbour-watch.absent")]);
    assert_names_both(&message, "quest.harbour-watch.first", "mob.harbour-watch.absent");
}

#[test]
fn a_quest_reward_naming_no_item_is_refused() {
    let message = refuse(|t| t.quests[0].rewards.mandatory_items[0].item = object("item.junk.absent"));
    assert_names_both(&message, "quest.harbour-watch.first", "item.junk.absent");
}

#[test]
fn a_loot_grant_naming_no_item_is_refused() {
    let message = refuse(|t| t.loot_tables[0].root.entries[0].entries[0] = leaf("item.junk.absent"));
    assert_names_both(&message, "loot.fixture.nested", "item.junk.absent");
}

#[test]
fn a_chargen_option_naming_no_loadout_item_is_refused() {
    let message = refuse(|t| t.chargen_options[0].starting_loadout[0].item_id = "item.consumable.absent".into());
    assert_names_both(&message, "chargen.league.warrior", "item.consumable.absent");
}

#[test]
fn a_chargen_option_naming_no_starting_quest_is_refused() {
    let message = refuse(|t| t.chargen_options[0].starting_quests = vec!["quest.harbour-watch.absent".into()]);
    assert_names_both(&message, "chargen.league.warrior", "quest.harbour-watch.absent");
}

#[test]
fn a_chargen_option_naming_no_starting_ability_is_refused() {
    let message = refuse(|t| t.chargen_options[0].starting_abilities = vec!["ability.melee.absent".into()]);
    assert_names_both(&message, "chargen.league.warrior", "ability.melee.absent");
}

#[test]
fn a_locale_gap_is_reported_but_does_not_fail_a_build() {
    let mut tree = harbour();
    mob_named(&mut tree, "mob.harbour-watch.sparrow").loc_ref = named("Absent.Name.txt");
    let report = report(&tree);
    assert!(report.is_clean(), "a missing translation is coverage, not a broken edge");
    assert!(
        report.locale_gaps.iter().any(|gap| gap.referencer == "mob.harbour-watch.sparrow" && gap.key == "Absent.Name.txt"),
        "the gap was not recorded: {:?}",
        report.locale_gaps
    );
}

#[test]
fn require_locale_turns_a_gap_into_a_failure_naming_both_ends() {
    let mut tree = harbour();
    mob_named(&mut tree, "mob.harbour-watch.sparrow").loc_ref = named("Absent.Name.txt");
    let mut report = report(&tree);
    require_locale(&mut report);
    assert!(!report.is_clean(), "--require-locale should refuse a gap");
    assert_names_both(&report.failure_message(), "mob.harbour-watch.sparrow", "Absent.Name.txt");
}

#[test]
fn a_reference_into_another_zone_is_external_and_not_a_failure() {
    let mut tree = harbour();
    tree.quests[0].finisher = Some(object("mob.tide-steps.quartermaster"));
    let report = report(&tree);
    assert!(report.is_clean());
    let external = report
        .external
        .iter()
        .find(|entry| entry.target == "mob.tide-steps.quartermaster")
        .expect("the external reference was not recorded");
    assert_eq!(external.zone, "tide-steps");
    assert_eq!(external.referencer, "quest.harbour-watch.first");
}

#[test]
fn a_reference_to_an_interactive_object_is_unmodelled_and_not_a_failure() {
    let mut tree = harbour();
    tree.tables[0].entries[0].object = object("item.interactive-objects.harbour-watch.crate.crate-chest-resource");
    let report = report(&tree);
    assert!(report.is_clean());
    let unmodelled = report
        .unmodelled
        .iter()
        .find(|entry| entry.referencer == "spawn.harbour-watch.table.sparrows")
        .expect("the unmodelled reference was not recorded");
    assert!(unmodelled.target.starts_with("item.interactive-objects."));
}
