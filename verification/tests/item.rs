use sarnaut::item::item_document;
use sarnaut::model::Provenance;
use sarnaut::overlay::Doc;
use sarnaut::xml::XmlDoc;

fn parse(text: &str) -> XmlDoc {
    sarnaut::parse::parse_document(text).expect("well-formed XML in document order")
}

fn provenance(path: &str) -> Provenance {
    Provenance {
        path: path.to_string(),
        blake3: String::new(),
        extractor: "sarnaut-extract/items".to_string(),
        source_root: None,
        prototype_chain: None,
    }
}

const FUR: &str = r#"<?xml version="1.0" encoding="UTF-8"?>
<gameMechanics.constructor.schemes.item.ItemResource>
  <Header><resourceId>42</resourceId></Header>
  <name href="GibberlingFur.txt"/><description href="GibberlingFur.Description.txt"/>
  <slot>RANGED</slot><level>7</level><requiredLevel>5</requiredLevel>
  <quality href="/Mechanics/ItemQualities/Common.xdb#xpointer(/quality)"/>
  <functionalPart type="ItemBonus"><statBonuses><Item><stat>IS_Luck</stat><value>3</value></Item></statBonuses><minDamage>2</minDamage><maxDamage>4</maxDamage></functionalPart>
  <stackLimit>20</stackLimit><sellPrice>11</sellPrice><buyPrice>22</buyPrice>
  <mystery answer="yes"><nested>kept</nested></mystery>
</gameMechanics.constructor.schemes.item.ItemResource>"#;

#[test]
fn extracts_item_fields_and_keeps_unmapped_xml() {
    let doc = parse(FUR);
    let item = item_document(
        &doc,
        "item.junk.gibberling-fur".to_string(),
        "junk".to_string(),
        provenance("Items/Junk/GibberlingFur.xdb"),
    );
    assert_eq!(item.schema_version, 1);
    assert_eq!(item.id, "item.junk.gibberling-fur");
    assert_eq!(item.category, "junk");
    assert_eq!(item.source_type, "gameMechanics.constructor.schemes.item.ItemResource");
    assert_eq!(item.resource_id, Some(42));
    assert_eq!(item.loc_ref.name.as_deref(), Some("GibberlingFur.txt"));
    assert_eq!(item.loc_ref.description.as_deref(), Some("GibberlingFur.Description.txt"));
    assert_eq!(item.slot.as_deref(), Some("ranged"));
    assert_eq!(item.level, Some(7));
    assert_eq!(item.required_level, Some(5));
    assert_eq!(item.stack_limit, Some(20));
    let quality = item.quality.as_ref().expect("quality");
    assert_eq!(quality.href, "/Mechanics/ItemQualities/Common.xdb#xpointer(/quality)");
    assert_eq!(quality.id, None);
    let price = item.vendor_price.as_ref().expect("price");
    assert_eq!((price.sell, price.buy), (Some(11), Some(22)));
    assert_eq!(item.stats.len(), 1);
    assert_eq!(item.stats[0].stat, "IS_Luck");
    assert_eq!(item.stats[0].value, "3");
    let combat = item.combat.as_ref().expect("combat");
    assert_eq!(combat.min_damage.as_deref(), Some("2"));
    assert_eq!(combat.max_damage.as_deref(), Some("4"));
    assert_eq!(combat.armor, None);
    assert_eq!(item.capacity, None);
    assert!(item.flags.is_empty());
    let keys: Vec<&str> = item.extra.iter().map(|(k, _)| k.as_str()).collect();
    assert_eq!(keys, vec!["functionalPart", "mystery"]);
    match &item.extra[1].1 {
        Doc::Mapping(entries) => {
            assert_eq!(entries.len(), 2);
            assert_eq!(entries[0].0, "@answer");
            assert!(matches!(&entries[0].1, Doc::Text(t) if t == "yes"));
            assert_eq!(entries[1].0, "nested");
            assert!(matches!(&entries[1].1, Doc::Text(t) if t == "kept"));
        }
        other => panic!("unexpected {other:?}"),
    }
    assert_eq!(item.source.path, "Items/Junk/GibberlingFur.xdb");
}

#[test]
fn an_item_without_a_functional_part_has_no_combat_and_sorted_flags() {
    let doc = parse(
        r#"<gameMechanics.constructor.schemes.item.ItemResource>
<sysName>Pebble</sysName><binding>BIND_ON_PICKUP</binding><buyPrice>5</buyPrice>
<isQuestRelated>true</isQuestRelated><canDrop>false</canDrop><includeInBoxes>true</includeInBoxes>
<itemClass href="/Items/Classes/Junk.xdb#xpointer(/x)"/>
</gameMechanics.constructor.schemes.item.ItemResource>"#,
    );
    let item = item_document(&doc, "item.misc.pebble".to_string(), "misc".to_string(), provenance("Items/Misc/Pebble.xdb"));
    assert_eq!(item.resource_id, None);
    assert_eq!(item.sys_name.as_deref(), Some("Pebble"));
    assert_eq!(item.binding.as_deref(), Some("bind-on-pickup"));
    assert!(item.combat.is_none());
    assert!(item.stats.is_empty());
    let price = item.vendor_price.as_ref().expect("price");
    assert_eq!((price.sell, price.buy), (None, Some(5)));
    let flags: Vec<(&str, bool)> = item.flags.iter().map(|(k, v)| (k.as_str(), *v)).collect();
    assert_eq!(flags, vec![("can_drop", false), ("include_in_boxes", true), ("quest_related", true)]);
    let class = item.item_class.as_ref().expect("class");
    assert_eq!(class.href, "/Items/Classes/Junk.xdb#xpointer(/x)");
    assert_eq!(class.id.as_deref(), Some("item.classes.junk"));
    assert!(item.extra.is_empty());
}

#[test]
fn an_item_without_prices_has_no_vendor_price() {
    let doc = parse("<gameMechanics.constructor.schemes.item.ItemResource><level>3</level></gameMechanics.constructor.schemes.item.ItemResource>");
    let item = item_document(&doc, "item.a.b".to_string(), "a".to_string(), provenance("Items/A/B.xdb"));
    assert!(item.vendor_price.is_none());
    assert_eq!(item.level, Some(3));
}

#[test]
fn parsing_keeps_document_order_parents_and_text_children() {
    let doc = parse("<root a=\"1\"><!-- note --><x>one<y/>two</x><x/></root>");
    assert_eq!(doc.len(), 4);
    assert_eq!(doc.element(0).name, "root");
    assert_eq!(doc.element(0).parent, None);
    assert_eq!(doc.element(0).attributes, vec![("a".to_string(), "1".to_string())]);
    assert_eq!(doc.element(1).name, "x");
    assert_eq!(doc.element(1).parent, Some(0));
    assert_eq!(doc.element(1).text.as_deref(), Some("one"));
    assert_eq!(doc.element(1).content, vec!["one".to_string(), "two".to_string()]);
    assert_eq!(doc.element(2).name, "y");
    assert_eq!(doc.element(2).parent, Some(1));
    assert_eq!(doc.element(3).parent, Some(0));
    assert!(sarnaut::parse::parse_document("<unclosed>").is_none());
}
