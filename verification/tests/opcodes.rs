use sarnaut::opcodes::{canonical_opcode_fields, push_default, require_boolean, sort_fields, ScriptError};
use sarnaut::script::{
    blank_value, boolean_value, integer_value, Decimal, Reference, ScriptField, ScriptNode,
    ScriptValue,
};

fn field(name: &str, value: ScriptValue) -> ScriptField {
    ScriptField { name: name.to_string(), value }
}

fn text_value(s: &str) -> ScriptValue {
    let mut v = blank_value();
    v.text = Some(s.to_string());
    v
}

fn node_value(family: &str, opcode: &str, fields: Vec<ScriptField>) -> ScriptValue {
    let mut v = blank_value();
    v.node = Some(Box::new(ScriptNode {
        key: "k/locator".to_string(),
        family: family.to_string(),
        opcode: opcode.to_string(),
        tier: "implemented".to_string(),
        fields,
    }));
    v
}

fn map_ref(row_type: &str, id: &str) -> ScriptValue {
    let mut v = blank_value();
    v.reference = Some(Reference {
        id: id.to_string(),
        row_type: Some(row_type.to_string()),
        href: None,
    });
    v
}

fn names(fields: &[ScriptField]) -> Vec<String> {
    fields.iter().map(|f| f.name.clone()).collect()
}

fn locator(map: ScriptValue, script_id: ScriptValue) -> ScriptField {
    field(
        "locator",
        node_value("basic", "Struct", vec![field("scriptID", script_id), field("map", map)]),
    )
}

#[test]
fn a_destination_locator_gains_a_yaw_and_sorts_its_fields() {
    let out = canonical_opcode_fields(
        "DestinationLocator",
        "q/dest",
        vec![locator(map_ref("map", "test-map"), text_value("Arrival"))],
    )
    .expect("locator");
    assert_eq!(names(&out), vec!["locator", "yaw"]);
    assert_eq!(out[1].value.integer, Some(0));
}

#[test]
fn a_locator_that_is_not_a_map_reference_is_refused() {
    let err = canonical_opcode_fields(
        "DestinationLocator",
        "q/dest",
        vec![locator(map_ref("map-resource", "test-map"), text_value("Arrival"))],
    )
    .unwrap_err();
    assert_eq!(
        err.message(),
        "q/dest: DestinationLocator.locator.map is not a canonical product map reference"
    );
    let err = canonical_opcode_fields(
        "DestinationLocator",
        "q/dest",
        vec![locator(map_ref("map", "test-map"), text_value(""))],
    )
    .unwrap_err();
    assert_eq!(err.message(), "q/dest: DestinationLocator.locator.scriptID is empty or not text");
    let err = canonical_opcode_fields("DestinationLocator", "q/dest", Vec::new()).unwrap_err();
    assert_eq!(err.message(), "q/dest: DestinationLocator requires field locator");
    let err = canonical_opcode_fields(
        "DestinationLocator",
        "q/dest",
        vec![field("locator", text_value("x"))],
    )
    .unwrap_err();
    assert!(matches!(err, ScriptError::NotMapPointer { .. }));
}

#[test]
fn a_guard_takes_its_defaults_and_an_integer_radius_becomes_decimal() {
    let out = canonical_opcode_fields("Guard", "t/guard", Vec::new()).expect("guard");
    assert_eq!(names(&out), vec!["noticeTarget", "scanRadius"]);
    assert_eq!(out[0].value.boolean, Some(false));
    assert_eq!(out[1].value.decimal, Some(Decimal { mantissa: 425, scale: 1 }));

    let out = canonical_opcode_fields("Guard", "t/guard", vec![field("scanRadius", integer_value(12))])
        .expect("guard");
    assert_eq!(out[1].value.decimal, Some(Decimal { mantissa: 12, scale: 0 }));
    assert_eq!(out[1].value.integer, None);

    let err = canonical_opcode_fields("Guard", "t/guard", vec![field("scanRadius", text_value("far"))])
        .unwrap_err();
    assert_eq!(err.message(), "t/guard: Guard.scanRadius is not decimal");
    let err = canonical_opcode_fields("Guard", "t/guard", vec![field("noticeTarget", integer_value(1))])
        .unwrap_err();
    assert_eq!(err.message(), "t/guard: Guard.noticeTarget is not boolean");
}

#[test]
fn predicate_is_avatar_drops_to_log_and_is_parameter_free() {
    let out = canonical_opcode_fields(
        "PredicateIsAvatar",
        "q/pred",
        vec![field("toLog", boolean_value(true))],
    )
    .expect("avatar");
    assert!(out.is_empty());
    let err = canonical_opcode_fields(
        "PredicateIsAvatar",
        "q/pred",
        vec![field("toLog", boolean_value(true)), field("other", integer_value(1))],
    )
    .unwrap_err();
    assert_eq!(err.message(), "q/pred: PredicateIsAvatar is parameter-free");
}

#[test]
fn damage_scalers_take_their_defaults_and_need_a_scaler_node() {
    let scaler = field("scaler", node_value("scaler", "LinearEffectScaler", Vec::new()));
    let out = canonical_opcode_fields("ScalerAllInputDamage", "t/in", vec![scaler]).expect("input");
    assert_eq!(names(&out), vec!["attackerConditions", "onlyFromCaster", "scaler", "stackCount"]);
    assert_eq!(out[3].value.integer, Some(1));
    assert_eq!(out[0].value.list.as_ref().map(|l| l.len()), Some(0));

    let err = canonical_opcode_fields("ScalerAllInputDamage", "t/in", Vec::new()).unwrap_err();
    assert_eq!(err.message(), "t/in: ScalerAllInputDamage requires field scaler");

    let wrong = field("scaler", node_value("basic", "Struct", Vec::new()));
    let err = canonical_opcode_fields("ScalerAllOutputDamage", "t/out", vec![wrong]).unwrap_err();
    assert_eq!(err.message(), "t/out: ScalerAllOutputDamage.scaler has family basic, want scaler");

    let scaler = field("scaler", node_value("scaler", "LinearEffectScaler", Vec::new()));
    let err = canonical_opcode_fields(
        "ScalerAllOutputDamage",
        "t/out",
        vec![scaler, field("group", integer_value(3))],
    )
    .unwrap_err();
    assert_eq!(err.message(), "t/out: ScalerAllOutputDamage.group is not a content reference or group id");

    let scaler = field("scaler", node_value("scaler", "LinearEffectScaler", Vec::new()));
    let out = canonical_opcode_fields(
        "ScalerAllOutputDamage",
        "t/out",
        vec![scaler, field("group", text_value("fire"))],
    )
    .expect("output");
    assert_eq!(names(&out), vec!["group", "scaler", "stackCount"]);
}

#[test]
fn other_opcodes_pass_unchanged() {
    let out = canonical_opcode_fields(
        "Wait",
        "t/wait",
        vec![field("z", integer_value(1)), field("a", integer_value(2))],
    )
    .expect("pass");
    assert_eq!(names(&out), vec!["z", "a"]);
}

#[test]
fn a_default_never_shadows_an_authored_field() {
    let mut fields = vec![field("yaw", integer_value(90))];
    push_default(&mut fields, "yaw", integer_value(0));
    assert_eq!(fields.len(), 1);
    assert_eq!(fields[0].value.integer, Some(90));
    push_default(&mut fields, "roll", integer_value(0));
    assert_eq!(names(&fields), vec!["yaw", "roll"]);
    assert!(require_boolean(&fields, "yaw", "k", "Op").is_err());
}

#[test]
fn fields_sort_bytewise_and_stably() {
    let out = sort_fields(vec![
        field("b", integer_value(1)),
        field("B", integer_value(2)),
        field("a", integer_value(3)),
        field("b", integer_value(4)),
    ]);
    assert_eq!(names(&out), vec!["B", "a", "b", "b"]);
    assert_eq!(out[2].value.integer, Some(1));
    assert_eq!(out[3].value.integer, Some(4));
}
