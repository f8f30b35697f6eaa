use sarnaut::refs::{
    candidates, check, foreign_zone, gaps_by_namespace, reference_edges, require_locale,
    DanglingRef, LocaleIndex, ReferenceReport, Universe,
};
use sarnaut::source::{
    LocRef, LocaleDocument, LocaleEntryDocument, MobDocument, ObjectRef, Provenance,
    QuestDocument, QuestRewardsDocument, SourceTree, ZoneDocument,
};

#[test]
fn a_whole_key_resolves_before_a_qualified_one() {
    let locales = LocaleIndex::from_keys(vec!["TideCrab.Name.txt".to_string()]);
    let source = Provenance {
        path: "Demo/Creatures/TideCrab.xdb".to_string(),
    };
    let resolved = locales.resolve("TideCrab.Name.txt", &source);
    assert!(resolved.found);
    assert_eq!(resolved.key, "TideCrab.Name.txt");
}

#[test]
fn a_relative_key_resolves_against_its_source_directory() {
    let locales =
        LocaleIndex::from_keys(vec!["Creatures/ZombieWarrior/Instances/A_Name".to_string()]);
    let source = Provenance {
        path: "Creatures/ZombieWarrior/Instances/A.(MobWorld).xdb".to_string(),
    };
    let resolved = locales.resolve("A_Name.txt", &source);
    assert!(resolved.found);
    assert_eq!(resolved.key, "Creatures/ZombieWarrior/Instances/A_Name");
}

#[test]
fn an_absolute_key_loses_its_leading_slash_and_extension() {
    let locales =
        LocaleIndex::from_keys(vec!["World/Quests/InstLeague1/Quest_1_10/Name".to_string()]);
    let source = Provenance {
        path: "World/Quests/InstLeague1/Quest_1_10/Quest_1_10.xdb".to_string(),
    };
    let resolved = locales.resolve("/World/Quests/InstLeague1/Quest_1_10/Name.txt", &source);
    assert!(resolved.found);
}

#[test]
fn an_unresolved_key_reports_not_found_and_the_caller_drops_it() {
    let locales = LocaleIndex::default();
    let source = Provenance {
        path: "Items/Mechanics/ZombieDenture.xdb".to_string(),
    };
    let resolved = locales.resolve("ZombieDenture.txt", &source);
    assert!(!resolved.found);
    assert_eq!(resolved.key, "ZombieDenture.txt");
}

#[test]
fn a_foreign_zone_id_is_external_and_a_local_one_is_not() {
    assert_eq!(
        foreign_zone("mob.archipelago-league1.elf-female.orc-quard", "inst-league1"),
        Some("archipelago-league1".to_string())
    );
    assert_eq!(foreign_zone("mob.inst-league1.rat.rat1-1", "inst-league1"), None);
    assert_eq!(foreign_zone("item.mechanics.broken-armor", "inst-league1"), None);
    assert_eq!(foreign_zone("faction.wild", "inst-league1"), None);
}

#[test]
fn candidates_are_tried_in_a_fixed_order_without_repeats() {
    assert_eq!(
        candidates(" A_Name.txt ", "/Creatures/Z/A.xdb"),
        vec!["A_Name.txt", "A_Name", "Creatures/Z/A_Name"]
    );
    assert_eq!(candidates("Name", ""), vec!["Name"]);
    assert_eq!(candidates("Dir/Name.txt", "X/Y.xdb"), vec!["Dir/Name.txt", "Dir/Name"]);
    assert_eq!(LocaleIndex::from_keys(vec!["a".into(), "a".into(), "b".into()]).len(), 2);
}

fn named(name: &str) -> LocRef {
    LocRef {
        name: Some(name.to_string()),
        ..LocRef::default()
    }
}

fn object(id: &str) -> Option<ObjectRef> {
    Some(ObjectRef {
        id: Some(id.to_string()),
    })
}

fn small_tree() -> SourceTree {
    SourceTree {
        zones: vec![ZoneDocument {
            id: "zone.harbour-watch".into(),
            loc_ref: named("Harbour.Name.txt"),
            source: Provenance::default(),
        }],
        mobs: vec![MobDocument {
            id: "mob.harbour-watch.gull".into(),
            zone: "zone.harbour-watch".into(),
            loc_ref: named("Gull.Name.txt"),
            mob_kind: object("mobkind.base.absent"),
            quality: None,
            faction: None,
            loot_table: object(""),
            abilities: vec![ObjectRef { id: None }],
            quests: vec![ObjectRef {
                id: Some("quest.harbour-watch.first".into()),
            }],
            source: Provenance::default(),
        }],
        quests: vec![QuestDocument {
            id: "quest.harbour-watch.first".into(),
            zone: "zone.harbour-watch".into(),
            loc_ref: LocRef::default(),
            starter: object("mob.harbour-watch.gull"),
            finisher: object("mob.tide-steps.quartermaster"),
            prerequisites: vec![],
            objectives: vec![],
            rewards: QuestRewardsDocument::default(),
            source: Provenance::default(),
        }],
        locales: vec![LocaleDocument {
            id: "locale.en".into(),
            language: "en".into(),
            entries: vec![LocaleEntryDocument {
                key: "Gull.Name.txt".into(),
                text: "Gull".into(),
            }],
        }],
        ..SourceTree::default()
    }
}

#[test]
fn the_checker_sorts_every_edge_into_one_outcome() {
    let tree = small_tree();
    let universe = Universe::of(&tree, "harbour-watch");
    let locales = LocaleIndex::build(&tree.locales);
    assert_eq!(locales.len(), 1);
    let edges = reference_edges(&tree);
    assert_eq!(edges.len(), 9);
    let report = check(&tree, &universe, &locales);
    // zone loc gap; mob zone, quest, loc resolve; mob kind dangles; quest zone,
    // starter resolve; finisher is external.
    assert_eq!(report.resolved, 5);
    assert_eq!(report.dangling.len(), 1);
    assert_eq!(report.dangling[0].target, "mobkind.base.absent");
    assert_eq!(report.dangling[0].class, "mob -> mob kind");
    assert_eq!(report.external.len(), 1);
    assert_eq!(report.external[0].zone, "tide-steps");
    assert_eq!(report.locale_gaps.len(), 1);
    assert!(!report.is_clean());
    assert_eq!(
        report.failure_message(),
        "1 unresolved reference(s):\n  mob -> mob kind: mob.harbour-watch.gull references mobkind.base.absent, which this pack does not carry"
    );
    let counts = gaps_by_namespace(&report);
    assert_eq!(counts, vec![("zone".to_string(), 1)]);
}

#[test]
fn require_locale_turns_gaps_into_dangling_references() {
    let tree = small_tree();
    let universe = Universe::of(&tree, "harbour-watch");
    let locales = LocaleIndex::build(&tree.locales);
    let mut report = check(&tree, &universe, &locales);
    require_locale(&mut report);
    assert!(report.locale_gaps.is_empty());
    assert_eq!(report.dangling.len(), 2);
    assert_eq!(report.dangling[1].class, "locale key");
    assert_eq!(report.dangling[1].referencer, "zone.harbour-watch (name)");
    assert_eq!(report.dangling[1].target, "Harbour.Name.txt");
}

#[test]
fn an_interactive_object_is_unmodelled() {
    let mut tree = small_tree();
    tree.mobs[0].mob_kind = object("item.interactive-objects.harbour.crate");
    let universe = Universe::of(&tree, "harbour-watch");
    let report = check(&tree, &universe, &LocaleIndex::default());
    assert_eq!(report.unmodelled.len(), 1);
    assert!(report.is_clean());
}

#[test]
fn the_failure_message_caps_at_twenty_lines() {
    let report = ReferenceReport {
        dangling: (0..23)
            .map(|i| DanglingRef {
                class: "c".into(),
                referencer: format!("r{i}"),
                target: "t".into(),
            })
            .collect(),
        ..ReferenceReport::default()
    };
    let message = report.failure_message();
    assert!(message.starts_with("23 unresolved reference(s):\n  c: r0 references t"));
    assert!(message.ends_with("\n  ... and 3 more"));
    assert_eq!(message.lines().count(), 22);
}
