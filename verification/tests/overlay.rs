use sarnaut::overlay::{choose_layers, is_layer_id, strip_patch_keys, Doc, DocumentSet, LayerEntry, LayerError};

fn convert(value: &serde_yaml::Value) -> Doc {
    match value {
        serde_yaml::Value::Null => Doc::Null,
        serde_yaml::Value::Bool(b) => Doc::Bool(*b),
        serde_yaml::Value::Number(n) => Doc::Number(n.to_string()),
        serde_yaml::Value::String(s) => Doc::Text(s.clone()),
        serde_yaml::Value::Sequence(items) => Doc::List(items.iter().map(convert).collect()),
        serde_yaml::Value::Mapping(map) => Doc::Mapping(
            map.iter()
                .map(|(k, v)| {
                    let key = match k {
                        serde_yaml::Value::String(s) => s.clone(),
                        other => serde_yaml::to_string(other).unwrap().trim().to_string(),
                    };
                    (key, convert(v))
                })
                .collect(),
        ),
        serde_yaml::Value::Tagged(tagged) => convert(&tagged.value),
    }
}

fn yaml(text: &str) -> Doc {
    convert(&serde_yaml::from_str::<serde_yaml::Value>(text).expect("parse test document"))
}

fn base_set(text: &str) -> DocumentSet {
    let mut set = DocumentSet::new();
    set.insert_base("base/doc.yaml", yaml(text)).expect("insert base");
    set
}

fn number(doc: &Doc, key: &str) -> Option<f64> {
    match doc.get(key) {
        Some(Doc::Number(n)) => n.parse().ok(),
        _ => None,
    }
}

fn list_len(doc: &Doc, key: &str) -> Option<usize> {
    match doc.get(key) {
        Some(Doc::List(items)) => Some(items.len()),
        _ => None,
    }
}

#[test]
fn an_overlay_overrides_a_scalar_and_leaves_its_siblings_alone() {
    let mut set = base_set("id: mob.a\nlevel_min: 2\nwalk_speed: 2.0\n");
    set.apply_overlay(
        "curated",
        "overlays/curated/mob.yaml",
        yaml("id: mob.a\ncuration_note: faster\nwalk_speed: 4.5\n"),
    )
    .expect("apply overlay");

    let document = set.get("mob.a").expect("document");
    assert_eq!(number(&document.value, "walk_speed"), Some(4.5));
    assert_eq!(number(&document.value, "level_min"), Some(2.0));
    assert!(document.curated);
    assert_eq!(set.notes.len(), 1);
    assert_eq!(set.notes[0].note, "faster");
}

#[test]
fn an_overlay_adds_a_document_no_base_layer_carries() {
    let mut set = base_set("id: mob.a\n");
    set.apply_overlay(
        "curated",
        "overlays/curated/quest.yaml",
        yaml("id: quest.new\ncuration_note: invented\nlevel: 1\n"),
    )
    .expect("apply overlay");

    let document = set.get("quest.new").expect("document");
    assert_eq!(document.origin_layer, "curated");
    assert_eq!(number(&document.value, "level"), Some(1.0));
    assert_eq!(set.len(), 2);
}

#[test]
fn a_mapping_merges_key_by_key_and_a_sequence_replaces_wholesale() {
    let mut set =
        base_set("id: mob.a\nrewards:\n  experience: 2\n  money: 5\nabilities: [one, two, three]\n");
    set.apply_overlay(
        "curated",
        "overlays/curated/mob.yaml",
        yaml("id: mob.a\ncuration_note: rebalance\nrewards:\n  money: 9\nabilities: [only]\n"),
    )
    .expect("apply overlay");

    let document = set.get("mob.a").expect("document");
    let rewards = document.value.get("rewards").expect("rewards");
    assert_eq!(number(rewards, "experience"), Some(2.0));
    assert_eq!(number(rewards, "money"), Some(9.0));
    assert_eq!(list_len(&document.value, "abilities"), Some(1));
}

#[test]
fn op_replace_discards_the_merged_value_beneath_it() {
    let mut set = base_set("id: mob.a\nrewards:\n  experience: 2\n  money: 5\n");
    set.apply_overlay(
        "curated",
        "overlays/curated/mob.yaml",
        yaml("id: mob.a\ncuration_note: reset\nrewards:\n  _op: replace\n  money: 9\n"),
    )
    .expect("apply overlay");

    let document = set.get("mob.a").expect("document");
    let rewards = document.value.get("rewards").expect("rewards");
    assert!(rewards.get("experience").is_none());
    assert_eq!(number(rewards, "money"), Some(9.0));
    assert!(rewards.get("_op").is_none());
}

#[test]
fn delete_removes_a_path_after_the_merge() {
    let mut set = base_set("id: mob.a\nrewards:\n  experience: 2\n  money: 5\n");
    set.apply_overlay(
        "curated",
        "overlays/curated/mob.yaml",
        yaml("id: mob.a\ncuration_note: drop money\n_delete: [rewards.money]\n"),
    )
    .expect("apply overlay");

    let document = set.get("mob.a").expect("document");
    let rewards = document.value.get("rewards").expect("rewards");
    assert!(rewards.get("money").is_none());
    assert_eq!(number(rewards, "experience"), Some(2.0));
}

#[test]
fn op_delete_removes_the_document() {
    let mut set = base_set("id: mob.a\n");
    set.apply_overlay(
        "curated",
        "overlays/curated/mob.yaml",
        yaml("id: mob.a\ncuration_note: retired\n_op: delete\n"),
    )
    .expect("apply overlay");

    assert!(set.get("mob.a").is_none());
    assert_eq!(set.deleted, vec!["mob.a".to_string()]);
}

#[test]
fn an_overlay_document_without_a_curation_note_is_refused() {
    let mut set = base_set("id: mob.a\n");
    let error = set
        .apply_overlay(
            "curated",
            "overlays/curated/mob.yaml",
            yaml("id: mob.a\nwalk_speed: 4.0\n"),
        )
        .expect_err("an overlay without a note must fail");
    let message = error.message();
    assert!(message.contains("curation_note"), "{message}");
    assert!(message.contains("mob.a"), "{message}");
    assert!(message.contains("curated"), "{message}");
}

#[test]
fn an_empty_curation_note_is_refused() {
    let mut set = base_set("id: mob.a\n");
    let error = set
        .apply_overlay(
            "curated",
            "overlays/curated/mob.yaml",
            yaml("id: mob.a\ncuration_note: \"   \"\n"),
        )
        .expect_err("a blank note must fail");
    assert!(error.message().contains("curation_note"));
}

#[test]
fn two_base_documents_with_one_id_are_refused() {
    let mut set = base_set("id: mob.a\n");
    let error = set
        .insert_base("base/other.yaml", yaml("id: mob.a\n"))
        .expect_err("a duplicate base id must fail");
    let message = error.message();
    assert!(message.contains("declared twice"), "{message}");
    assert!(message.contains("mob.a"), "{message}");
}

#[test]
fn two_layers_writing_one_leaf_is_a_conflict_naming_both() {
    let mut set = base_set("id: mob.a\nwalk_speed: 2.0\n");
    set.apply_overlay(
        "first",
        "overlays/first/mob.yaml",
        yaml("id: mob.a\ncuration_note: one\nwalk_speed: 3.0\n"),
    )
    .expect("first layer");
    set.apply_overlay(
        "second",
        "overlays/second/mob.yaml",
        yaml("id: mob.a\ncuration_note: two\nwalk_speed: 4.0\n"),
    )
    .expect("second layer");

    assert_eq!(set.conflicts.len(), 1);
    let described = set.conflicts[0].describe();
    assert!(described.contains("first"), "{described}");
    assert!(described.contains("second"), "{described}");
    assert!(described.contains("walk_speed"), "{described}");
    assert_eq!(number(&set.get("mob.a").expect("document").value, "walk_speed"), Some(4.0));
}

#[test]
fn one_layer_rewriting_its_own_leaf_twice_is_not_a_conflict() {
    let mut set = base_set("id: mob.a\nrewards:\n  money: 1\n");
    set.apply_overlay(
        "only",
        "overlays/only/a.yaml",
        yaml("id: mob.a\ncuration_note: one\nrewards:\n  money: 2\n"),
    )
    .expect("first document");
    set.apply_overlay(
        "only",
        "overlays/only/b.yaml",
        yaml("id: mob.a\ncuration_note: two\nrewards:\n  money: 3\n"),
    )
    .expect("second document");
    assert!(set.conflicts.is_empty());
}

#[test]
fn a_layer_touching_a_subtree_another_layer_wrote_inside_is_a_conflict() {
    let mut set = base_set("id: mob.a\nrewards:\n  money: 1\n");
    set.apply_overlay(
        "first",
        "overlays/first/mob.yaml",
        yaml("id: mob.a\ncuration_note: one\nrewards:\n  money: 2\n"),
    )
    .expect("first layer");
    set.apply_overlay(
        "second",
        "overlays/second/mob.yaml",
        yaml("id: mob.a\ncuration_note: two\nrewards: {_op: replace, honor: 4}\n"),
    )
    .expect("second layer");
    assert_eq!(set.conflicts.len(), 1);
    assert_eq!(set.conflicts[0].path, "rewards");
}

#[test]
fn the_leaf_owner_is_the_last_layer_to_write_it() {
    let mut set = base_set("id: mob.a\nwalk_speed: 2.0\n");
    set.apply_overlay("first", "a.yaml", yaml("id: mob.a\ncuration_note: one\nwalk_speed: 3.0\n"))
        .expect("first");
    let document = set.get("mob.a").expect("document");
    assert_eq!(document.leaf_owner("walk_speed").as_deref(), Some("first"));
    assert_eq!(document.leaf_owner("id"), None);
}

#[test]
fn delete_of_a_missing_document_and_bad_delete_lists_are_refused() {
    let mut set = base_set("id: mob.a\n");
    let error = set
        .apply_overlay("curated", "x.yaml", yaml("id: mob.b\ncuration_note: gone\n_op: delete\n"))
        .expect_err("nothing to delete");
    assert!(error.message().contains("which no layer supplies"));
    let error = set
        .apply_overlay("curated", "x.yaml", yaml("id: mob.a\ncuration_note: bad\n_delete: rewards\n"))
        .expect_err("not a list");
    assert_eq!(error.message(), "x.yaml: `_delete` must be a list of dotted paths");
    let error = set
        .apply_overlay("curated", "x.yaml", yaml("id: mob.a\ncuration_note: bad\n_delete: [a, 3]\n"))
        .expect_err("not text");
    assert_eq!(error.message(), "x.yaml: `_delete` entry 1 is not a dotted path string");
    let error = set.insert_base("y.yaml", yaml("name: nothing\n")).expect_err("no id");
    assert_eq!(error.message(), "y.yaml: document has no top-level string id");
}

#[test]
fn patch_keys_are_stripped_before_typed_reading() {
    let stripped = strip_patch_keys(yaml("id: a\ncuration_note: n\n_delete: [x]\n_op: replace\nkept: 1\n"));
    assert!(stripped.get("curation_note").is_none());
    assert!(stripped.get("_delete").is_none());
    assert!(stripped.get("_op").is_none());
    assert!(stripped.get("kept").is_some());
    assert!(stripped.get("id").is_some());
}

fn entry(id: &str, default_on: bool) -> LayerEntry {
    LayerEntry {
        id: id.to_string(),
        description: String::new(),
        apply_by_default: default_on,
    }
}

#[test]
fn layers_apply_in_manifest_order_and_bad_manifests_are_refused() {
    let entries = vec![entry("curated", true), entry("combat-exhibit", false), entry("late", true)];
    let chosen = choose_layers("layers.yaml", true, &entries, &vec![]).expect("defaults");
    assert_eq!(chosen.iter().map(|e| e.id.as_str()).collect::<Vec<_>>(), vec!["curated", "late"]);
    let named = choose_layers(
        "layers.yaml",
        true,
        &entries,
        &vec!["late".to_string(), "combat-exhibit".to_string()],
    )
    .expect("named");
    assert_eq!(named.iter().map(|e| e.id.as_str()).collect::<Vec<_>>(), vec!["combat-exhibit", "late"]);
    match choose_layers("layers.yaml", true, &entries, &vec!["typo".to_string()]) {
        Err(LayerError::Unknown { wanted, listed, .. }) => {
            assert_eq!(wanted, "typo");
            assert_eq!(listed, "combat-exhibit, curated, late");
        }
        other => panic!("unexpected {other:?}"),
    }
    let twice = vec![entry("curated", true), entry("curated", true)];
    assert!(matches!(
        choose_layers("layers.yaml", true, &twice, &vec![]),
        Err(LayerError::Duplicate { .. })
    ));
    assert!(matches!(
        choose_layers("layers.yaml", true, &vec![entry("Bad_Id", true)], &vec![]),
        Err(LayerError::BadId { .. })
    ));
    assert!(matches!(
        choose_layers("layers.yaml", false, &vec![], &vec!["x".to_string()]),
        Err(LayerError::NoManifest { .. })
    ));
    assert!(choose_layers("layers.yaml", false, &vec![], &vec![]).expect("none").is_empty());
    assert!(is_layer_id("combat-exhibit-2"));
    assert!(!is_layer_id("a--b"));
    assert!(!is_layer_id(""));
}
