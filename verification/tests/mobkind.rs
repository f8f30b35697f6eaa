use sarnaut::mobkind::{inherit_kind, own_kind_fields, resolve_kind, KindError, KindSource, ResolvedKind};
use sarnaut::model::Provenance;
use sarnaut::overlay::Doc;
use sarnaut::parse::parse_document;
use sarnaut::reference::canonical_id_from_source_path;

fn provenance(path: &str) -> Provenance {
    Provenance {
        path: path.to_string(),
        blake3: String::new(),
        extractor: "sarnaut-extract".to_string(),
        source_root: None,
        prototype_chain: None,
    }
}

const TEMPLATE: &str = r#"<gameMechanics.world.mob.MobKind>
<Header><resourceId>92750855</resourceId><isPrototype>true</isPrototype></Header>
<hpMod>0.27</hpMod><dpsMod>0.175</dpsMod><speed>1</speed><expMod>0.25</expMod><manaMod>1</manaMod><lootMod>0.33</lootMod>
</gameMechanics.world.mob.MobKind>"#;

fn resolve(parent: Option<&ResolvedKind>, relative: &str, text: &str, prototype: Option<&str>) -> ResolvedKind {
    let doc = parse_document(text).expect("xml");
    let own = own_kind_fields(&doc, "/src", &format!("/src/{relative}"));
    let id = canonical_id_from_source_path(relative).expect("mob kind id");
    inherit_kind(parent, own, &id, "gameMechanics.world.mob.MobKind", doc.resource_id(0), prototype, provenance(relative))
}

#[test]
fn a_child_overrides_one_inherited_modifier_and_keeps_the_rest() {
    let template = resolve(None, "Mechanics/MobKindTemplates/AE1Player.xdb", TEMPLATE, None);
    assert_eq!(template.id, "mobkind.mob-kind-templates.ae1player");
    let prototype = "/Mechanics/MobKindTemplates/AE1Player.xdb#xpointer(/gameMechanics.world.mob.MobKind)";
    let child = resolve(
        Some(&template),
        "Mechanics/Creatures/Zombie/ZombieKind.(MobKind).xdb",
        r#"<gameMechanics.world.mob.MobKind>
<Header><resourceId>53144</resourceId><Prototype href="/Mechanics/MobKindTemplates/AE1Player.xdb#xpointer(/gameMechanics.world.mob.MobKind)"/></Header>
<expMod>1</expMod><race>UNDEAD</race>
<mobClass href="/Mechanics/MobClasses/UDZombieFighter.xdb#xpointer(/gameMechanics.world.mob.MobClass)"/>
<lootTable><Item href="/World/LootTables/Zombie/Zombie(01).xdb#x"/></lootTable>
</gameMechanics.world.mob.MobKind>"#,
        Some(prototype),
    );
    let d = &child.document;
    assert_eq!(d.hp_mod.as_deref(), Some("0.27"));
    assert_eq!(d.dps_mod.as_deref(), Some("0.175"));
    assert_eq!(d.loot_mod.as_deref(), Some("0.33"));
    assert_eq!(d.mana_mod.as_deref(), Some("1"));
    // The child sets expMod itself, so the prototype's 0.25 does not survive.
    assert_eq!(d.exp_mod.as_deref(), Some("1"));
    assert_eq!(d.prototype.as_ref().and_then(|p| p.id.as_deref()), Some("mobkind.mob-kind-templates.ae1player"));
    assert_eq!(d.resource_id, Some(53144));
    let keys: Vec<&str> = d.extra.iter().map(|(k, _)| k.as_str()).collect();
    assert_eq!(keys, vec!["level_curve_gap", "loot_tables", "race"]);
    assert!(matches!(&d.extra[2].1, Doc::Text(t) if t == "UNDEAD"));
    assert_eq!(child.loot_tables.len(), 1);
    assert_eq!(child.loot_tables[0].href, "/World/LootTables/Zombie/Zombie(01).xdb#x");
    assert_eq!(child.chain, vec!["mobkind.mob-kind-templates.ae1player", "mobkind.creatures.zombie.zombie-kind"]);
}

#[test]
fn a_two_level_chain_merges_grandparent_fields() {
    let template = resolve(None, "Mechanics/MobKindTemplates/AE1Player.xdb", TEMPLATE, None);
    let middle = resolve(
        Some(&template),
        "Mechanics/Creatures/Zombie/Middle.(MobKind).xdb",
        r#"<gameMechanics.world.mob.MobKind><Header><resourceId>2</resourceId></Header><dpsMod>2</dpsMod></gameMechanics.world.mob.MobKind>"#,
        Some("/Mechanics/MobKindTemplates/AE1Player.xdb#x"),
    );
    let leaf = resolve(
        Some(&middle),
        "Mechanics/Creatures/Zombie/Leaf.(MobKind).xdb",
        r#"<gameMechanics.world.mob.MobKind><Header><resourceId>3</resourceId></Header><hpMod>9</hpMod></gameMechanics.world.mob.MobKind>"#,
        Some("Middle.(MobKind).xdb#x"),
    );
    let d = &leaf.document;
    assert_eq!(d.hp_mod.as_deref(), Some("9"));
    assert_eq!(d.dps_mod.as_deref(), Some("2"));
    assert_eq!(d.loot_mod.as_deref(), Some("0.33"));
    assert_eq!(
        d.source.prototype_chain.clone().unwrap(),
        vec!["mobkind.mob-kind-templates.ae1player", "mobkind.creatures.zombie.middle", "mobkind.creatures.zombie.leaf"]
    );
    assert!(leaf.loot_tables.is_empty());
}

fn kind(relative: &str, text: &str) -> KindSource {
    KindSource {
        relative: relative.to_string(),
        doc: parse_document(text).expect("xml"),
        source: provenance(relative),
    }
}

#[test]
fn a_missing_prototype_is_an_error() {
    let kinds = vec![kind(
        "Mechanics/Creatures/Zombie/Orphan.(MobKind).xdb",
        r#"<gameMechanics.world.mob.MobKind>
<Header><resourceId>4</resourceId><Prototype href="/Mechanics/MobKindTemplates/Gone.xdb#x"/></Header>
<hpMod>1</hpMod>
</gameMechanics.world.mob.MobKind>"#,
    )];
    let error = resolve_kind(&kinds, "/src", "Mechanics/Creatures/Zombie/Orphan.(MobKind).xdb").unwrap_err();
    let rendered = error.message();
    assert!(rendered.contains("Mechanics/MobKindTemplates/Gone.xdb"), "{rendered}");
    assert!(rendered.contains("does not exist"), "{rendered}");
}

#[test]
fn resolving_walks_the_prototype_chain_from_the_root_down() {
    let kinds = vec![
        kind(
            "Mechanics/Creatures/Zombie/Leaf.(MobKind).xdb",
            r#"<gameMechanics.world.mob.MobKind><Header><resourceId>3</resourceId><Prototype href="Middle.(MobKind).xdb#x"/></Header><hpMod>9</hpMod></gameMechanics.world.mob.MobKind>"#,
        ),
        kind(
            "Mechanics/Creatures/Zombie/Middle.(MobKind).xdb",
            r#"<gameMechanics.world.mob.MobKind><Header><resourceId>2</resourceId><Prototype href="/Mechanics/MobKindTemplates/AE1Player.xdb#x"/></Header><dpsMod>2</dpsMod></gameMechanics.world.mob.MobKind>"#,
        ),
        kind("Mechanics/MobKindTemplates/AE1Player.xdb", TEMPLATE),
    ];
    let leaf = resolve_kind(&kinds, "/src", "Mechanics/Creatures/Zombie/Leaf.(MobKind).xdb").expect("resolved");
    assert_eq!(
        leaf.chain,
        vec!["mobkind.mob-kind-templates.ae1player", "mobkind.creatures.zombie.middle", "mobkind.creatures.zombie.leaf"]
    );
    let d = &leaf.document;
    assert_eq!(d.hp_mod.as_deref(), Some("9"));
    assert_eq!(d.dps_mod.as_deref(), Some("2"));
    assert_eq!(d.loot_mod.as_deref(), Some("0.33"));
    assert_eq!(d.resource_id, Some(3));
    assert_eq!(d.source.path, "Mechanics/Creatures/Zombie/Leaf.(MobKind).xdb");
}

#[test]
fn a_prototype_cycle_is_refused_with_its_path() {
    let kinds = vec![
        kind(
            "Mechanics/Creatures/Zombie/A.(MobKind).xdb",
            r#"<gameMechanics.world.mob.MobKind><Header><Prototype href="B.(MobKind).xdb#x"/></Header></gameMechanics.world.mob.MobKind>"#,
        ),
        kind(
            "Mechanics/Creatures/Zombie/B.(MobKind).xdb",
            r#"<gameMechanics.world.mob.MobKind><Header><Prototype href="A.(MobKind).xdb#x"/></Header></gameMechanics.world.mob.MobKind>"#,
        ),
    ];
    let error = resolve_kind(&kinds, "/src", "Mechanics/Creatures/Zombie/A.(MobKind).xdb").unwrap_err();
    match &error {
        KindError::Cycle { chain } => assert_eq!(
            chain,
            &vec![
                "Mechanics/Creatures/Zombie/A.(MobKind).xdb".to_string(),
                "Mechanics/Creatures/Zombie/B.(MobKind).xdb".to_string(),
                "Mechanics/Creatures/Zombie/A.(MobKind).xdb".to_string(),
            ]
        ),
        other => panic!("expected a cycle, got {other:?}"),
    }
    assert!(error.message().starts_with("prototype cycle: Mechanics/Creatures/Zombie/A.(MobKind).xdb -> "));
}

#[test]
fn a_document_of_another_kind_is_no_prototype() {
    let kinds = vec![kind(
        "Mechanics/MobKindTemplates/Odd.xdb",
        r#"<gameMechanics.world.mob.MobClass><Header/></gameMechanics.world.mob.MobClass>"#,
    )];
    match resolve_kind(&kinds, "/src", "Mechanics/MobKindTemplates/Odd.xdb") {
        Err(KindError::NotAKind { tag, .. }) => assert_eq!(tag, "gameMechanics.world.mob.MobClass"),
        other => panic!("expected a refusal, got {other:?}"),
    }
}

#[test]
fn a_quality_is_ranked_on_the_ladder_and_records_its_prototype() {
    let doc = parse_document(
        r#"<gameMechanics.world.mob.MobQuality><Header><resourceId>7</resourceId><Prototype href="/Mechanics/MobQualities/QualityPrototype.xdb#x"/></Header><quality>ELITE</quality></gameMechanics.world.mob.MobQuality>"#,
    )
    .expect("xml");
    let d = sarnaut::taxonomy::mob_quality_document("Mechanics/MobQualities/Elite.xdb", &doc, "/src", provenance("Mechanics/MobQualities/Elite.xdb"))
        .expect("quality");
    assert_eq!(d.id, "mobquality.elite");
    assert_eq!(d.rank, Some(4));
    assert_eq!(d.resource_id, Some(7));
    let keys: Vec<&str> = d.extra.iter().map(|(k, _)| k.as_str()).collect();
    assert!(keys.contains(&"prototype"), "{keys:?}");
    let odd = parse_document(r#"<gameMechanics.world.mob.MobQuality><quality>LEGEND</quality></gameMechanics.world.mob.MobQuality>"#).expect("xml");
    let error = sarnaut::taxonomy::mob_quality_document("Mechanics/MobQualities/Odd.xdb", &odd, "/src", provenance("x")).unwrap_err();
    assert_eq!(error.message(), "Mechanics/MobQualities/Odd.xdb has unranked quality LEGEND");
}

#[test]
fn a_class_keeps_each_stat_modifier_that_names_both_parts() {
    let doc = parse_document(
        r#"<gameMechanics.world.mob.MobClass><statMods><Item><stat>STR</stat><mod>1.5</mod></Item><Item><stat>AGI</stat></Item></statMods><role>tank</role></gameMechanics.world.mob.MobClass>"#,
    )
    .expect("xml");
    let d = sarnaut::taxonomy::mob_class_document("Mechanics/MobClasses/UDZombieFighter.xdb", &doc, "/src", provenance("x"))
        .expect("class");
    assert_eq!(d.id, "mobclass.ud-zombie-fighter");
    assert_eq!(d.stat_mods, vec![("STR".to_string(), "1.5".to_string())]);
    let keys: Vec<&str> = d.extra.iter().map(|(k, _)| k.as_str()).collect();
    assert_eq!(keys, vec!["role"]);
}
