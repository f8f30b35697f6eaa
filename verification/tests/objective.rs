use sarnaut::objective::{derive_objective_id, normalize_ref};

#[test]
fn a_source_counter_href_is_stable_across_spelling_noise() {
    let quest = "quest.inst-league1.quest-1-30";
    let left = derive_objective_id(
        quest,
        "quest-count-special",
        Some("/World/Quests/InstLeague1/Quest_1_30/CountId_1.xdb#xpointer(/Count)"),
        None,
        &[],
    );
    let right = derive_objective_id(
        quest,
        "quest-count-special",
        Some(" world\\quests\\instleague1\\quest_1_30\\countid_1.xdb "),
        None,
        &[],
    );
    assert_eq!(left, right);
    assert!(left
        .strip_prefix(&format!("{quest}.objective."))
        .is_some_and(|digest| digest.len() == 64 && digest.bytes().all(|byte| byte.is_ascii_hexdigit())));
}

#[test]
fn fallback_identity_sorts_and_deduplicates_targets() {
    let left = derive_objective_id(
        "quest.test.first",
        "quest-count-kill",
        None,
        Some("Counter.txt#ignored"),
        &["/Mobs/B.xdb#b", "/Mobs/A.xdb#a", "/Mobs/A.xdb#other"],
    );
    let right = derive_objective_id(
        "quest.test.first",
        "quest-count-kill",
        None,
        Some("counter.txt"),
        &["mobs/a.xdb", "mobs/b.xdb"],
    );
    assert_eq!(left, right);
}

fn component(out: &mut Vec<u8>, value: &str) {
    out.extend_from_slice(&(value.len() as u64).to_le_bytes());
    out.extend_from_slice(value.as_bytes());
}

#[test]
fn the_identity_is_the_digest_of_the_framed_components() {
    let mut frame = Vec::new();
    component(&mut frame, "sarnaut.quest-objective.v1");
    component(&mut frame, "quest.a");
    component(&mut frame, "quest-count-kill");
    component(&mut frame, "source-id");
    component(&mut frame, "x/y.xdb");
    let expected = format!("quest.a.objective.{}", blake3::hash(&frame).to_hex());
    assert_eq!(derive_objective_id("quest.a", "quest-count-kill", Some("\\X\\Y.xdb#p"), Some("ignored"), &["t"]), expected);
    // A blank source counter falls back to the semantic identity.
    let blank = derive_objective_id("quest.a", "k", Some("   "), None, &[]);
    let semantic = derive_objective_id("quest.a", "k", None, None, &[]);
    assert_eq!(blank, semantic);
    assert_eq!(normalize_ref("  //A\\B#C "), "a/b");
}
