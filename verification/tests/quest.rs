use sarnaut::model::{Provenance, ResourceRef};
use sarnaut::overlay::Doc;
use sarnaut::parse::parse_document;
use sarnaut::quest::quest_document;

const FIRST: &str = r#"<gameMechanics.constructor.schemes.quest.QuestResource>
<Header><resourceId>1</resourceId></Header><level>1</level><name href="Name.txt"/><goal href="Goal.txt"/><internalName>First</internalName><type>QUEST_TYPE_SOLO</type>
<startConditions><Item type="PredicateQuestStatus"><quest href="/World/Quests/TestZone/Before/Before.xdb#x"/><status>Finished</status></Item></startConditions>
<finisher type="QuestFinisherMob"><mobWorld href="/Characters/Human/Instances/TestZone/Guide.(MobWorld).xdb#x"/></finisher>
<counters><Item type="QuestCountKill"><customName href="Counter.txt"/><limit>2</limit><objects><Item href="/Creatures/Rat/Instances/TestZone/Rat.(MobWorld).xdb#x"/></objects><unknown>kept</unknown></Item></counters>
<reward><experience>5</experience><money>2</money><mandatoryItems><Item><item href="/Items/Junk/Fur.xdb#x"/><number>1</number></Item></mandatoryItems></reward>
<pvp>false</pvp><canCancel>true</canCancel>
</gameMechanics.constructor.schemes.quest.QuestResource>"#;

fn provenance(path: &str) -> Provenance {
    Provenance { path: path.into(), blake3: String::new(), extractor: String::new(), source_root: None, prototype_chain: None }
}

#[test]
fn extracts_quest_mob_spawn_and_patrol_route() {
    let doc = parse_document(FIRST).expect("xml");
    let starter = ResourceRef {
        id: Some("mob.test-zone.human.guide".into()),
        href: "Characters/Human/Instances/TestZone/Guide.(MobWorld).xdb".into(),
    };
    let quest = quest_document(
        &doc,
        "quest.test-zone.first".into(),
        "test-zone",
        Some(starter),
        "/src",
        "/src/World/Quests/TestZone/First/First.xdb",
        provenance("World/Quests/TestZone/First/First.xdb"),
    );
    assert_eq!(quest.zone, "zone.test-zone");
    assert!(quest.starter.is_some());
    assert_eq!(quest.resource_id, Some(1));
    assert_eq!(quest.level, Some(1));
    assert_eq!(quest.internal_name.as_deref(), Some("First"));
    assert_eq!(quest.quest_type.as_deref(), Some("quest-type-solo"));
    assert_eq!(quest.loc_ref.name.as_deref(), Some("World/Quests/TestZone/First/Name"));
    assert_eq!(quest.loc_ref.goal.as_deref(), Some("World/Quests/TestZone/First/Goal"));
    assert_eq!(
        quest.finisher.as_ref().map(|f| f.href.as_str()),
        Some("/Characters/Human/Instances/TestZone/Guide.(MobWorld).xdb#x")
    );
    assert_eq!(quest.prerequisites.len(), 1);
    assert_eq!(quest.prerequisites[0].status.as_deref(), Some("Finished"));
    assert_eq!(quest.prerequisites[0].quest.href, "/World/Quests/TestZone/Before/Before.xdb#x");
    assert_eq!(quest.objectives.len(), 1);
    let objective = &quest.objectives[0];
    assert_eq!(objective.kind, "quest-count-kill");
    assert_eq!(objective.loc_ref.as_deref(), Some("World/Quests/TestZone/First/Counter"));
    assert_eq!(objective.limit, Some(2));
    assert_eq!(objective.targets.len(), 1);
    assert!(objective.objective_id.starts_with("quest.test-zone.first.objective."));
    assert_eq!(objective.objective_id.len(), "quest.test-zone.first.objective.".len() + 64);
    assert_eq!(objective.extra.len(), 1);
    assert_eq!(objective.extra[0].0, "unknown");
    assert!(matches!(&objective.extra[0].1, Doc::Text(t) if t == "kept"));
    assert_eq!(quest.rewards.experience, Some(5));
    assert_eq!(quest.rewards.money, Some(2));
    assert_eq!(quest.rewards.honor, None);
    assert_eq!(quest.rewards.mandatory_items.len(), 1);
    assert_eq!(quest.rewards.mandatory_items[0].count, 1);
    assert_eq!(quest.rewards.mandatory_items[0].item.href, "/Items/Junk/Fur.xdb#x");
    let flags: Vec<(&str, bool)> = quest.flags.iter().map(|(k, v)| (k.as_str(), *v)).collect();
    assert_eq!(flags, vec![("can_cancel", true), ("pvp", false)]);
    assert!(quest.extra.is_empty());
}

#[test]
fn a_zone_mob_offers_its_quests_and_keys_its_name() {
    let doc = parse_document(r#"<gameMechanics.world.mob.MobWorld><Header><resourceId>2</resourceId></Header><name href="Guide.txt"/><levelMin>1</levelMin><levelMax>1</levelMax><walkSpeed>2.5</walkSpeed><interactions><availableQuests><Item href="/World/Quests/TestZone/First/First.xdb#x"/><Item href=""/></availableQuests></interactions><race>HUMAN</race></gameMechanics.world.mob.MobWorld>"#).expect("xml");
    let relative = "Characters/Human/Instances/TestZone/Guide.(MobWorld).xdb";
    let mob = sarnaut::mob::mob_document(&doc, "mob.test-zone.human.guide".into(), "test-zone", "/src", &format!("/src/{relative}"), provenance(relative));
    assert_eq!(mob.kind, "mob");
    assert_eq!(mob.zone, "zone.test-zone");
    assert_eq!(mob.loc_ref.name.as_deref(), Some("Characters/Human/Instances/TestZone/Guide"));
    assert_eq!((mob.level_min, mob.level_max), (Some(1), Some(1)));
    assert_eq!(mob.walk_speed.as_deref(), Some("2.5"));
    assert_eq!(mob.quests.len(), 1);
    assert_eq!(mob.quests[0].id.as_deref(), Some("quest.test-zone.first"));
    assert!(mob.abilities.is_empty());
    assert_eq!(mob.extra.len(), 1);
    assert_eq!(mob.extra[0].0, "race");
}

#[test]
fn a_spawn_table_lists_each_object_entry_with_its_group() {
    let doc = parse_document(r#"<gameMechanics.map.spawn.SpawnTable><Header><resourceId>3</resourceId></Header><isScriptSpawn>false</isScriptSpawn><commons><Item><object href="/Creatures/Rat/Instances/TestZone/Rat.(MobWorld).xdb#x"/><chance>1</chance><spawnTime type="gameMechanics.map.spawn.TimeOnce"/></Item><Item><chance>2</chance></Item></commons><rareOnes><Item><object href="/Creatures/Rat/Instances/TestZone/BigRat.(MobWorld).xdb#x"/><note>big</note></Item></rareOnes></gameMechanics.map.spawn.SpawnTable>"#).expect("xml");
    let table = sarnaut::spawn::spawn_table_document(&doc, "spawn.test-zone.table.rats".into(), "test-zone", provenance("Maps/TestMap/SpawnTables/TestZone/Rats.(MobSpawnTable).xdb"));
    assert_eq!(table.kind, "table");
    assert_eq!(table.resource_id, Some(3));
    assert_eq!(table.scripted, Some(false));
    assert_eq!(table.entries.len(), 2);
    assert_eq!(table.entries[0].group, "commons");
    assert_eq!(table.entries[0].chance.as_deref(), Some("1"));
    assert_eq!(table.entries[0].spawn_time.as_deref(), Some("time-once"));
    assert_eq!(table.entries[0].object.id.as_deref(), Some("mob.test-zone.rat.rat"));
    assert_eq!(table.entries[1].group, "rare-ones");
    assert_eq!(table.entries[1].extra.len(), 1);
    let keys: Vec<&str> = table.extra.iter().map(|(k, _)| k.as_str()).collect();
    assert_eq!(keys, vec!["commons", "rareOnes"]);
}

#[test]
fn the_first_mob_offering_a_quest_starts_it() {
    let offer = |file: &str, quest: &str| {
        let doc = parse_document(&format!(
            r#"<gameMechanics.world.mob.MobWorld><interactions><availableQuests><Item href="{quest}"/></availableQuests></interactions></gameMechanics.world.mob.MobWorld>"#
        ))
        .expect("xml");
        let relative = format!("Characters/Human/Instances/TestZone/{file}");
        sarnaut::mob::mob_document(&doc, format!("mob.test-zone.human.{file}"), "test-zone", "/src", &format!("/src/{relative}"), provenance(&relative))
    };
    let mobs = vec![
        offer("a", "/World/Quests/TestZone/Other/Other.xdb#x"),
        offer("b", "/World/Quests/TestZone/First/First.xdb#x"),
        offer("c", "/World/Quests/TestZone/First/First.xdb#x"),
    ];
    let starter = sarnaut::mob::quest_starter(&mobs, "quest.test-zone.first").expect("a starter");
    assert_eq!(starter.id.as_deref(), Some("mob.test-zone.human.b"));
    assert_eq!(starter.href, "Characters/Human/Instances/TestZone/b");
    assert!(sarnaut::mob::quest_starter(&mobs, "quest.test-zone.none").is_none());
}

fn zone_source(relative: &str, text: &str) -> sarnaut::zone::ZoneSource {
    sarnaut::zone::ZoneSource {
        path: format!("/src/{relative}"),
        doc: parse_document(text).expect("xml"),
        source: provenance(relative),
    }
}

const GUIDE: &str = r#"<gameMechanics.world.mob.MobWorld><Header><resourceId>2</resourceId></Header><interactions><availableQuests><Item href="/World/Quests/TestZone/First/First.xdb#x"/></availableQuests></interactions></gameMechanics.world.mob.MobWorld>"#;

#[test]
fn a_zone_keeps_each_kind_of_file_and_starts_quests_at_the_offering_mob() {
    let mobs = vec![
        zone_source("Characters/Human/Instances/TestZone/Notes.xdb", r#"<gameMechanics.world.mob.MobKind/>"#),
        zone_source("Characters/Human/Instances/TestZone/Guide.(MobWorld).xdb", GUIDE),
    ];
    let quests = vec![zone_source("World/Quests/TestZone/First/First.xdb", FIRST)];
    let spawns = vec![zone_source(
        "Maps/Test/SpawnTables/TestZone/Camp.xdb",
        r#"<gameMechanics.map.spawn.SpawnTable><Header><resourceId>3</resourceId></Header></gameMechanics.map.spawn.SpawnTable>"#,
    )];
    let x = sarnaut::zone::extract_zone(mobs, quests, spawns, "test-zone", "/src").expect("extracted");
    assert_eq!(x.mobs.len(), 1);
    assert_eq!(x.mobs[0].id, "mob.test-zone.human.guide");
    assert_eq!(x.quests.len(), 1);
    assert_eq!(x.quests[0].id, "quest.test-zone.first");
    let starter = x.quests[0].starter.as_ref().expect("starter");
    assert_eq!(starter.id.as_deref(), Some("mob.test-zone.human.guide"));
    assert_eq!(starter.href, "Characters/Human/Instances/TestZone/Guide.(MobWorld).xdb");
    assert_eq!(x.spawn_tables.len(), 1);
    assert_eq!(x.spawn_tables[0].id, "spawn.test-zone.table.camp");
}

#[test]
fn a_kept_zone_file_without_an_id_is_refused() {
    let quests = vec![zone_source("World/Quests/Flat.xdb", FIRST)];
    let error = sarnaut::zone::extract_zone(Vec::new(), quests, Vec::new(), "test-zone", "/src").unwrap_err();
    assert_eq!(error.message(), "build quest ID from World/Quests/Flat.xdb");
}

#[test]
fn a_zone_scope_lists_what_its_mob_instances_name_once_each() {
    let mob = |file: &str, kind: &str| {
        zone_source(
            &format!("Creatures/Zombie/Instances/TestZone/{file}"),
            &format!(r#"<gameMechanics.world.mob.MobWorld><kind href="{kind}"/><faction href="/World/Factions/Wild.xdb#x"/></gameMechanics.world.mob.MobWorld>"#),
        )
    };
    let sources = vec![
        mob("A.(MobWorld).xdb", "/Mechanics/Creatures/Zombie/ZombieKind.(MobKind).xdb#x"),
        mob("B.(MobWorld).xdb", "/Mechanics/Creatures/Zombie/ZombieKind.(MobKind).xdb#x"),
        zone_source("Creatures/Zombie/Instances/TestZone/Notes.xdb", r#"<gameMechanics.world.mob.MobKind><kind href="/Mechanics/Other.xdb"/></gameMechanics.world.mob.MobKind>"#),
    ];
    let scope = sarnaut::zone::zone_kind_scope(&sources, "/src");
    assert_eq!(scope.mob_worlds, 2);
    assert_eq!(scope.kinds, vec!["Mechanics/Creatures/Zombie/ZombieKind.(MobKind).xdb"]);
    assert_eq!(scope.factions, vec!["World/Factions/Wild.xdb"]);
    assert!(scope.qualities.is_empty());
}
