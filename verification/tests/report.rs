use sarnaut::refs::ReferenceReport;
use sarnaut::report::{reachable_triggers, BuildReport, ScriptCensusReport};
use sarnaut::source::{
    QuestScriptDocument, ScriptFieldDocument, ScriptNodeDocument, ScriptRefDocument,
    ScriptTriggerDocument, ScriptValueDocument, SourceTree, Provenance,
};

fn node(opcode: &str, tier: &str, fields: Vec<ScriptFieldDocument>) -> ScriptNodeDocument {
    ScriptNodeDocument {
        key: String::new(),
        family: "impact".into(),
        opcode: opcode.into(),
        tier: tier.into(),
        fields,
    }
}

fn trigger_ref(id: &str) -> ScriptFieldDocument {
    ScriptFieldDocument {
        name: "trigger".into(),
        value: ScriptValueDocument {
            reference: Some(ScriptRefDocument { id: id.into(), row_type: Some("trigger".into()), href: None }),
            ..ScriptValueDocument::default()
        },
    }
}

fn nested(child: ScriptNodeDocument) -> ScriptFieldDocument {
    ScriptFieldDocument {
        name: "then".into(),
        value: ScriptValueDocument { node: Some(Box::new(child)), ..ScriptValueDocument::default() },
    }
}

fn trigger(id: &str, entrypoint: bool, root: ScriptNodeDocument) -> ScriptTriggerDocument {
    ScriptTriggerDocument { id: id.into(), zone: "zone.z".into(), entrypoint, root, source: Provenance::default() }
}

fn tree() -> SourceTree {
    SourceTree {
        quest_scripts: vec![QuestScriptDocument {
            id: "script.z.q".into(),
            zone: "zone.z".into(),
            quest: "quest.z.q".into(),
            counters: vec![],
            start_impacts: vec![node(
                "ImpactAttachTrigger",
                "implemented",
                vec![trigger_ref("trigger.z.a"), nested(node("Mystery", "refused", vec![]))],
            )],
            trigger_agents: vec![],
            source: Provenance::default(),
        }],
        script_triggers: vec![
            trigger("trigger.z.a", false, node("TriggerResource", "implemented", vec![trigger_ref("trigger.z.b")])),
            trigger("trigger.z.b", false, node("TriggerResource", "implemented", vec![])),
            trigger("trigger.z.orphan", false, node("ImpactsOverTime", "inert-and-counted", vec![])),
            trigger("trigger.z.map", true, node("TriggerResource", "implemented", vec![])),
        ],
        ..SourceTree::default()
    }
}

#[test]
fn the_census_counts_every_node_and_separately_the_reachable_ones() {
    let t = tree();
    let mut reached = reachable_triggers(&t);
    reached.sort();
    assert_eq!(reached, vec!["trigger.z.a", "trigger.z.b", "trigger.z.map"]);
    let census = ScriptCensusReport::of(&t).expect("census");
    assert_eq!(census.quest_scripts, 1);
    assert_eq!(census.script_triggers, 4);
    assert_eq!(census.nodes, 6);
    assert_eq!(
        census.implemented,
        vec![("ImpactAttachTrigger".to_string(), 1), ("TriggerResource".to_string(), 3)]
    );
    assert_eq!(census.inert_and_counted, vec![("ImpactsOverTime".to_string(), 1)]);
    assert_eq!(census.refused, vec![("Mystery".to_string(), 1)]);
    assert_eq!(census.reachable_script_triggers, 3);
    assert_eq!(census.reachable_nodes, 5);
    assert!(census.reachable_inert_and_counted.is_empty());
    assert!(ScriptCensusReport::of(&SourceTree::default()).is_none());
}

#[test]
fn the_build_report_carries_the_census_and_the_reference_pass() {
    let t = tree();
    let report = BuildReport::new("abc", "classic", "z", &t, &ReferenceReport::default(), 4);
    assert_eq!(report.pack_id, "abc");
    assert_eq!(report.selection.locale_keys, 4);
    assert!(report.scripts.is_some());
    assert!(report.references.dangling.is_empty());
}
