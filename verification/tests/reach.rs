use sarnaut::overlay::CurationNote;
use sarnaut::reach::{insert_id, select_item_sources, split_reachable, wanted_item_ids, wanted_loot_tables, ItemSource};
use sarnaut::source::{
    ChargenDocument, LocRef, LootNodeDocument, LootTableDocument, MobDocument, ObjectRef,
    Provenance, QuestDocument, QuestObjectiveDocument, QuestRewardItemDocument,
    QuestRewardsDocument, ScriptFieldDocument, ScriptNodeDocument, ScriptRefDocument,
    ScriptTriggerDocument, ScriptValueDocument, SourceLoadoutEntry, SourceTree,
};

fn obj(id: &str) -> ObjectRef {
    ObjectRef { id: Some(id.to_string()) }
}

fn mob(id: &str, loot: Option<&str>) -> MobDocument {
    MobDocument {
        id: id.to_string(),
        zone: "zone.a".to_string(),
        loc_ref: LocRef::default(),
        mob_kind: None,
        quality: None,
        faction: None,
        loot_table: loot.map(obj),
        abilities: Vec::new(),
        quests: Vec::new(),
        source: Provenance::default(),
    }
}

fn note(id: &str, layer: &str) -> CurationNote {
    CurationNote {
        document_id: id.to_string(),
        layer: layer.to_string(),
        source: "overlay.yaml".to_string(),
        note: "why".to_string(),
    }
}

fn leaf(item: &str) -> LootNodeDocument {
    LootNodeDocument {
        node: "item".to_string(),
        entries: Vec::new(),
        item: Some(obj(item)),
        min_number: Some(1),
        max_number: Some(1),
    }
}

fn table(id: &str, items: &[&str]) -> LootTableDocument {
    LootTableDocument {
        id: id.to_string(),
        root: LootNodeDocument {
            node: "and".to_string(),
            entries: items.iter().map(|i| leaf(i)).collect(),
            item: None,
            min_number: None,
            max_number: None,
        },
    }
}

fn strings(v: &[&str]) -> Vec<String> {
    v.iter().map(|s| s.to_string()).collect()
}

#[test]
fn mobs_reach_their_tables_and_curated_tables_ship_anyway() {
    let mut tree = SourceTree::default();
    tree.mobs.push(mob("mob.b", Some("loot.wolf")));
    tree.mobs.push(mob("mob.a", Some("loot.bear")));
    tree.mobs.push(mob("mob.c", Some("loot.wolf")));
    tree.mobs.push(mob("mob.d", None));
    tree.notes.push(note("loot.curated", "seasonal"));
    tree.notes.push(note("loot.base-only", "base"));
    tree.notes.push(note("item.sword", "seasonal"));
    assert_eq!(wanted_loot_tables(&tree), strings(&["loot.bear", "loot.curated", "loot.wolf"]));
}

#[test]
fn unreached_tables_are_counted_and_dropped() {
    let tables = vec![table("loot.bear", &[]), table("loot.fox", &[]), table("loot.wolf", &[])];
    let wanted = strings(&["loot.bear", "loot.wolf"]);
    let (kept, unreachable) = split_reachable(tables, &wanted);
    let ids: Vec<&str> = kept.iter().map(|t| t.id.as_str()).collect();
    assert_eq!(ids, vec!["loot.bear", "loot.wolf"]);
    assert_eq!(unreachable, 1);
}

#[test]
fn items_come_from_loot_chargen_quests_scripts_and_overlays() {
    let mut tree = SourceTree::default();
    tree.chargen_options.push(ChargenDocument {
        id: "chargen.warrior".to_string(),
        faction: "faction.empire".to_string(),
        loc_ref: LocRef::default(),
        spawn_zone: "zone.a".to_string(),
        starting_loadout: vec![SourceLoadoutEntry {
            item_id: "item.tunic".to_string(),
            quantity: 1,
            slot: "chest".to_string(),
        }],
        starting_abilities: Vec::new(),
        starting_quests: Vec::new(),
        source: Provenance::default(),
    });
    tree.quests.push(QuestDocument {
        id: "quest.one".to_string(),
        zone: "zone.a".to_string(),
        loc_ref: LocRef::default(),
        starter: None,
        finisher: None,
        prerequisites: Vec::new(),
        objectives: vec![QuestObjectiveDocument {
            objective_id: "o1".to_string(),
            kind: "collect".to_string(),
            targets: vec![obj("item.pelt"), obj("mob.wolf")],
        }],
        rewards: QuestRewardsDocument {
            mandatory_items: vec![QuestRewardItemDocument { item: obj("item.ring"), count: 1, hidden: false }],
            alternative_items: vec![QuestRewardItemDocument { item: obj("item.axe"), count: 1, hidden: false }],
            ..QuestRewardsDocument::default()
        },
        source: Provenance::default(),
    });
    let give = ScriptValueDocument {
        reference: Some(ScriptRefDocument {
            id: "item.key".to_string(),
            row_type: Some("item".to_string()),
            href: None,
        }),
        ..ScriptValueDocument::default()
    };
    let other = ScriptValueDocument {
        reference: Some(ScriptRefDocument {
            id: "mob.wolf".to_string(),
            row_type: Some("mob".to_string()),
            href: None,
        }),
        ..ScriptValueDocument::default()
    };
    tree.script_triggers.push(ScriptTriggerDocument {
        id: "trigger.a".to_string(),
        zone: "zone.a".to_string(),
        entrypoint: false,
        root: ScriptNodeDocument {
            key: "k".to_string(),
            family: "impact".to_string(),
            opcode: "ImpactGiveItem".to_string(),
            tier: "implemented".to_string(),
            fields: vec![
                ScriptFieldDocument { name: "item".to_string(), value: give },
                ScriptFieldDocument { name: "mob".to_string(), value: other },
            ],
        },
        source: Provenance::default(),
    });
    let reachable = vec![table("loot.wolf", &["item.pelt", "item.fang"])];
    let supplied = strings(&["item.curated"]);
    let ids = wanted_item_ids(&tree, &reachable, &supplied);
    assert_eq!(
        ids,
        strings(&[
            "item.axe",
            "item.curated",
            "item.fang",
            "item.key",
            "item.pelt",
            "item.ring",
            "item.tunic"
        ])
    );
}

#[test]
fn an_id_list_stays_ascending_and_holds_each_id_once() {
    let mut ids = Vec::new();
    for id in ["b", "a", "c", "a", "B"] {
        insert_id(&mut ids, id);
    }
    assert_eq!(ids, strings(&["B", "a", "b", "c"]));
}

#[test]
fn only_wanted_items_are_loaded_merged_values_first() {
    let wanted = strings(&["item.axe", "item.bow", "item.cup"]);
    let merged = strings(&["item.bow", "item.zzz"]);
    let index = vec![
        ("item.axe".to_string(), "items/tools/axe.yaml".to_string()),
        ("item.bow".to_string(), "items/weapons/bow.yaml".to_string()),
        ("item.unwanted".to_string(), "items/x.yaml".to_string()),
    ];
    let sources = select_item_sources(&wanted, &merged, &index);
    assert_eq!(
        sources,
        vec![
            ItemSource::Indexed { id: "item.axe".into(), relative: "items/tools/axe.yaml".into() },
            ItemSource::Merged("item.bow".into()),
        ]
    );
}
