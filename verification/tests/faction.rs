use std::collections::BTreeMap;

use sarnaut::faction::{FactionError, FactionWalk};
use sarnaut::model::Provenance;
use sarnaut::overlay::Doc;
use sarnaut::xml::XmlDoc;

fn parse(text: &str) -> XmlDoc {
    sarnaut::parse::parse_document(text).expect("well-formed XML in document order")
}

fn provenance(path: &str) -> Provenance {
    Provenance {
        path: path.to_string(),
        blake3: String::new(),
        extractor: String::new(),
        source_root: None,
        prototype_chain: None,
    }
}

#[test]
fn closes_over_relations_and_derives_stance_from_the_source_fields() {
    let mut files = BTreeMap::new();
    files.insert(
        "World/Factions/Wild.xdb",
        r#"<gameMechanics.world.creature.Faction><Header><resourceId>1</resourceId></Header>
<name href="WILD_NAME.txt"/>
<friends><Item href="Neutral.xdb#x"/></friends>
</gameMechanics.world.creature.Faction>"#,
    );
    files.insert(
        "World/Factions/Neutral.xdb",
        r#"<gameMechanics.world.creature.Faction><Header><resourceId>2</resourceId></Header>
<name href="NEUTRAL_NAME.txt"/><littleOldMan>true</littleOldMan><defaultReputation>0</defaultReputation>
<neutrals><Item href="ZoneLeague1/CityOrder.(Faction).xdb#x"/></neutrals>
</gameMechanics.world.creature.Faction>"#,
    );
    files.insert(
        "World/Factions/ZoneLeague1/CityOrder.(Faction).xdb",
        r#"<gameMechanics.world.creature.Faction><Header><resourceId>3</resourceId></Header><sysTutorialName>CityOrder</sysTutorialName></gameMechanics.world.creature.Faction>"#,
    );
    let mut walk = FactionWalk::new(&vec!["World/Factions/Wild.xdb".to_string()]);
    let mut documents = BTreeMap::new();
    while let Some(relative) = walk.next_path() {
        let text = files.get(relative.as_str()).expect("faction exists");
        let doc = parse(text);
        let document = walk
            .visit("/src", &relative, &doc, provenance(&relative))
            .expect("faction");
        documents.insert(relative, document);
    }
    assert_eq!(documents.len(), 3);

    let wild = &documents["World/Factions/Wild.xdb"];
    assert_eq!(wild.id, "faction.wild");
    assert_eq!(wild.default_stance, "hostile");
    assert!(wild.attackable);
    assert_eq!(wild.resource_id, Some(1));
    assert_eq!(wild.relations.len(), 1);
    assert_eq!(wild.relations[0].faction, "faction.neutral");
    assert_eq!(wild.relations[0].stance, "friendly");
    assert_eq!(wild.loc_ref.name.as_deref(), Some("World/Factions/WILD_NAME"));

    let neutral = &documents["World/Factions/Neutral.xdb"];
    assert_eq!(neutral.default_stance, "neutral");
    assert!(!neutral.attackable);
    assert_eq!(neutral.relations[0].faction, "faction.zone-league1-city-order");
    assert_eq!(neutral.relations[0].stance, "neutral");
    let keys: Vec<&str> = neutral.extra.iter().map(|(k, _)| k.as_str()).collect();
    assert_eq!(keys, vec!["defaultReputation", "derivation", "littleOldMan"]);

    let city = &documents["World/Factions/ZoneLeague1/CityOrder.(Faction).xdb"];
    assert!(city.relations.is_empty());
    let keys: Vec<&str> = city.extra.iter().map(|(k, _)| k.as_str()).collect();
    assert_eq!(keys, vec!["derivation", "sysTutorialName"]);
    assert!(matches!(&city.extra[1].1, Doc::Text(t) if t == "CityOrder"));
}

#[test]
fn a_document_that_is_not_a_faction_is_refused() {
    let mut walk = FactionWalk::new(&vec!["World/Factions/Odd.xdb".to_string()]);
    let relative = walk.next_path().expect("seed");
    let doc = parse("<gameMechanics.world.creature.MobWorld/>");
    let err = walk.visit("/src", &relative, &doc, provenance(&relative)).unwrap_err();
    assert_eq!(
        err.message(),
        "World/Factions/Odd.xdb is a gameMechanics.world.creature.MobWorld, not a gameMechanics.world.creature.Faction"
    );
    assert!(matches!(err, FactionError::NotAFaction { .. }));
    assert_eq!(walk.next_path(), None);
}

#[test]
fn relations_are_sorted_by_target_and_the_first_stance_wins() {
    let mut walk = FactionWalk::new(&vec!["World/Factions/A.xdb".to_string()]);
    let relative = walk.next_path().expect("seed");
    let doc = parse(
        r#"<gameMechanics.world.creature.Faction>
<friends><Item href="Zed.xdb"/><Item href="Bee.xdb"/></friends>
<neutrals><Item href="Bee.xdb"/><Item href=""/></neutrals>
<parentFaction href="Root.xdb"/>
</gameMechanics.world.creature.Faction>"#,
    );
    let d = walk.visit("/src", &relative, &doc, provenance(&relative)).expect("faction");
    let rels: Vec<(&str, &str)> = d
        .relations
        .iter()
        .map(|r| (r.faction.as_str(), r.stance.as_str()))
        .collect();
    assert_eq!(rels, vec![("faction.bee", "friendly"), ("faction.zed", "friendly")]);
    assert_eq!(
        walk.queue,
        vec![
            "World/Factions/A.xdb".to_string(),
            "World/Factions/Zed.xdb".to_string(),
            "World/Factions/Bee.xdb".to_string(),
            "World/Factions/Root.xdb".to_string()
        ]
    );
}

#[test]
fn an_element_becomes_a_value_with_attributes_text_and_grouped_children() {
    let doc = parse(r#"<root a="1"> hi <b>x</b><c/><b><d>y</d></b></root>"#);
    let v = doc.node_value(0);
    let Doc::Mapping(entries) = v else { panic!("mapping") };
    let keys: Vec<&str> = entries.iter().map(|(k, _)| k.as_str()).collect();
    assert_eq!(keys, vec!["@a", "_text", "b", "c"]);
    assert!(matches!(&entries[1].1, Doc::Text(t) if t == "hi"));
    assert!(matches!(&entries[2].1, Doc::List(items) if items.len() == 2));
    assert!(matches!(&entries[3].1, Doc::Null));
    assert_eq!(doc.descendant_hrefs(0), Vec::<String>::new());
    let linked = parse(r#"<r><x href="a"/><y><z href="b"/><w href=""/></y></r>"#);
    assert_eq!(linked.descendant_hrefs(0), vec!["a".to_string(), "b".to_string()]);
    assert_eq!(linked.href(0, "x").as_deref(), Some("a"));
    assert_eq!(linked.text(0, "y"), None);
}
