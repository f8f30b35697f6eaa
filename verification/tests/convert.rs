use sarnaut::convert::{map_resource_id, ConvertError, Converter};
use sarnaut::script::trigger_id;

#[test]
fn a_map_resource_href_becomes_the_product_map_id() {
    let mut c = Converter::new("test-zone", "World/Quests/TestZone/Quest_1");
    let (id, row_type) = c
        .resolve("/Maps/TestMap/MapResource.xdb#xpointer(/mapLoader.MapResource)")
        .expect("map");
    assert_eq!(id, "test-map");
    assert_eq!(row_type.as_deref(), Some("map"));
    assert!(c.external_resources.is_empty());
}

#[test]
fn map_resource_ids_fail_closed_on_unfamiliar_paths() {
    assert_eq!(map_resource_id("maps/Lightwood/mapresource.XDB").unwrap(), "lightwood");
    let err = map_resource_id("Maps/A/B/MapResource.xdb").unwrap_err();
    assert!(matches!(err, ConvertError::NotMapResource { .. }));
    assert_eq!(
        err.message(),
        "map resource reference \"Maps/A/B/MapResource.xdb\" is not Maps/<map>/MapResource.xdb"
    );
    let err = map_resource_id("Maps/___/MapResource.xdb").unwrap_err();
    assert_eq!(
        err.message(),
        "map resource reference \"Maps/___/MapResource.xdb\" has no canonical product map id"
    );
}

#[test]
fn a_trigger_is_queued_once_however_often_it_is_named() {
    let mut c = Converter::new("test-zone", "World/Quests/TestZone/Quest_1");
    let pointer = "#xpointer(/gameMechanics.constructor.schemes.quest.trigger.TriggerResource)";
    let relative = format!("Audit.(TriggerResource).xdb{pointer}");
    let rooted = format!("/World/Quests/TestZone/Quest_1/Audit.(TriggerResource).xdb{pointer}");
    let (first, kind) = c.resolve(&relative).expect("relative");
    let (second, _) = c.resolve(&rooted).expect("rooted");
    let expected = trigger_id("test-zone", "World/Quests/TestZone/Quest_1/Audit.(TriggerResource).xdb");
    assert_eq!(first, expected);
    assert_eq!(second, expected);
    assert_eq!(kind.as_deref(), Some("trigger"));
    assert_eq!(c.queue, vec![expected.clone()]);
    assert_eq!(c.wanted_triggers.len(), 1);
    assert_eq!(c.wanted_triggers[0].1, "World/Quests/TestZone/Quest_1/Audit.(TriggerResource).xdb");
}

#[test]
fn a_marker_types_an_href_without_a_pointer() {
    let mut c = Converter::new("test-zone", "");
    let (id, kind) = c
        .resolve("World/Quests/Z/Q/DressTrigger.(TriggerResource).xdb")
        .expect("marker");
    assert_eq!(kind.as_deref(), Some("trigger"));
    assert_eq!(id, trigger_id("test-zone", "World/Quests/Z/Q/DressTrigger.(TriggerResource).xdb"));
}

#[test]
fn a_quest_count_id_takes_its_own_rule() {
    let mut c = Converter::new("inst-league1", "");
    let (id, _) = c
        .resolve("/World/Quests/InstLeague1/Quest_1_30/CountId_1.xdb#xpointer(/gameMechanics.constructor.schemes.quest.QuestCountId)")
        .expect("count id");
    assert_eq!(id, "questcount.inst-league1.quest-1-30.count-id-1");
    let err = c
        .resolve("/Elsewhere/CountId_1.xdb#xpointer(/gameMechanics.constructor.schemes.quest.QuestCountId)")
        .unwrap_err();
    assert_eq!(err.message(), "no QuestCountId id rule covers Elsewhere/CountId_1.xdb");
}

#[test]
fn an_unmodelled_reference_is_minted_under_ext_and_recorded_once() {
    let mut c = Converter::new("test-zone", "");
    let (id, kind) = c.resolve("/Mechanics/ItemQualities/Common.xdb").expect("ext");
    assert!(id.starts_with("ext."), "{id}");
    assert_eq!(kind, None);
    let (again, _) = c.resolve("Mechanics/ItemQualities/Common.xdb").expect("ext");
    assert_eq!(again, id);
    assert_eq!(c.external_resources, vec![id]);
}

#[test]
fn tiers_are_tallied_and_refused_opcodes_counted() {
    let mut c = Converter::new("z", "");
    c.count_tier("implemented", "Guard");
    c.count_tier("inert-and-counted", "Log");
    c.count_tier("refused", "Teleport");
    c.count_tier("refused", "Teleport");
    c.count_tier("refused", "Dance");
    assert_eq!((c.nodes, c.implemented, c.inert, c.refused), (5, 1, 1, 3));
    assert_eq!(
        c.refused_opcodes,
        vec![("Dance".to_string(), 1), ("Teleport".to_string(), 2)]
    );
}
