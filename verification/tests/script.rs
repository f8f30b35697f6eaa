use sarnaut::script::{
    family_of, marker_of, normalize, parent_dir, parse_decimal, parse_i64, questcount_id,
    row_type_slug, scalar, trigger_id,
};
use sarnaut::tiers::{implemented_opcodes, inert_opcodes, tier_for};

fn chars(s: &str) -> Vec<char> {
    s.chars().collect()
}

#[test]
fn scalars_type_by_lexical_shape() {
    assert_eq!(scalar("true", "runningMode").boolean, Some(true));
    assert_eq!(scalar("100", "value").integer, Some(100));
    assert_eq!(scalar("1500", "delay").duration_ms, Some(1500));
    let decimal = scalar("-372.122009", "x").decimal.expect("decimal");
    assert_eq!((decimal.mantissa, decimal.scale), (-372122009, 6));
    assert_eq!(scalar("MAINHAND", "slot").text.as_deref(), Some("MAINHAND"));
}

#[test]
fn questcount_ids_follow_the_quest_tree() {
    assert_eq!(
        questcount_id("World/Quests/InstLeague1/Quest_1_30/CountId_1.xdb").as_deref(),
        Some("questcount.inst-league1.quest-1-30.count-id-1")
    );
}

#[test]
fn relative_paths_normalize() {
    assert_eq!(
        normalize("World/Quests/Zone/Quest/CountId_1.xdb"),
        "World/Quests/Zone/Quest/CountId_1.xdb"
    );
    assert_eq!(normalize("a/b/../c.xdb"), "a/c.xdb");
}

#[test]
fn markers_type_hrefs_without_xpointers() {
    assert_eq!(
        marker_of("World/Quests/Z/Q/DressTrigger.(TriggerResource).xdb").as_deref(),
        Some("TriggerResource")
    );
    assert_eq!(marker_of("World/Quests/Z/Q/TriggerAvatar.xdb"), None);
}

#[test]
fn unknown_opcodes_default_to_refused_without_an_encode_allow_list() {
    assert_eq!(tier_for("ImpactsDeferred"), "implemented");
    assert_eq!(tier_for("ImpactsOverTime"), "inert-and-counted");
    assert_eq!(tier_for("FutureStateChangingOpcode"), "refused");
}

#[test]
fn tables_stay_sorted_and_disjoint() {
    let implemented = implemented_opcodes();
    let inert = inert_opcodes();
    assert!(implemented.windows(2).all(|pair| pair[0] < pair[1]));
    assert!(inert.windows(2).all(|pair| pair[0] < pair[1]));
    assert!(implemented
        .iter()
        .all(|opcode| inert.binary_search(opcode).is_err()));
}

#[test]
fn integers_and_decimals_parse_exactly_or_not_at_all() {
    assert_eq!(parse_i64(&chars("+42")), Some(42));
    assert_eq!(parse_i64(&chars("-9223372036854775808")), Some(i64::MIN));
    assert_eq!(parse_i64(&chars("9223372036854775808")), None);
    assert_eq!(parse_i64(&chars("-")), None);
    assert_eq!(parse_i64(&chars("1e3")), None);
    assert!(parse_decimal(&chars("1.")).is_none());
    assert!(parse_decimal(&chars(".5")).is_none());
    assert!(parse_decimal(&chars("+1.5")).is_none());
    assert!(parse_decimal(&chars("1.2.3")).is_none());
    assert!(parse_decimal(&chars("92233720368547758.08")).is_none());
    let d = parse_decimal(&chars("0.050")).expect("decimal");
    assert_eq!((d.mantissa, d.scale), (50, 3));
    assert_eq!(scalar("-5", "delay").integer, Some(-5));
    assert_eq!(scalar("false", "x").boolean, Some(false));
}

#[test]
fn ids_and_types_come_from_the_path() {
    assert_eq!(
        trigger_id("test-zone", "World/Quests/TestZone/Quest_1/DressTrigger.(TriggerResource).xdb"),
        "trigger.test-zone.quest-1.dress-trigger"
    );
    assert_eq!(
        trigger_id("lightwood", "Mechanics/Spells/QuestSpells/IL_QuestSpells/Kill.xdb"),
        "trigger.lightwood.il-quest-spells.kill"
    );
    assert_eq!(
        trigger_id("lightwood", "Other/Place/Thing.xdb"),
        "trigger.lightwood.other-place-thing"
    );
    assert_eq!(row_type_slug("MobSpawnTable"), "spawn-table");
    assert_eq!(row_type_slug("MapResource"), "map-resource");
    assert_eq!(family_of("gameMechanics.elements.impacts.ImpactKill"), "impact");
    assert_eq!(family_of("gameMechanics.constructor.schemes.quest.trigger.TriggerResource"), "trigger");
    assert_eq!(family_of("gameMechanics.scalers.TrivialScaler"), "scaler");
    assert_eq!(parent_dir("World/Quests/Z/Q.xdb"), "World/Quests/Z");
    assert_eq!(parent_dir("Q.xdb"), "");
    assert_eq!(marker_of("A/B.(Open.xdb"), None);
}
