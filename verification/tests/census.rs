use sarnaut::census::{
    classify_quest, display_count, enforce_baseline, render_table, summarize, unreadable,
    BaselineError, Objective, QuestDocument, ScriptNodeCounts,
};

fn objective(kind: Option<&str>, limit: u64, targets: usize) -> Objective {
    Objective { kind: kind.map(str::to_string), limit, targets }
}

fn quest(id: Option<&str>, objectives: Vec<Objective>) -> QuestDocument {
    QuestDocument { id: id.map(str::to_string), objectives }
}

#[test]
fn quests_are_classified_by_their_first_failing_objective() {
    let servable = classify_quest("a.yaml", &quest(Some("quest.a"), vec![objective(Some("quest-count-kill"), 3, 1)]));
    assert_eq!(servable.status, "servable");
    assert_eq!(servable.reason, "servable");
    let unsupported = classify_quest(
        "b.yaml",
        &quest(Some("quest.b"), vec![objective(Some("quest-count-item"), 0, 0), objective(Some("quest-count-special"), 1, 0)]),
    );
    assert_eq!(unsupported.reason_code, "unsupported objective kind");
    assert_eq!(unsupported.reason, "unsupported objective kind: quest-count-special (objective 1)");
    let invalid = classify_quest("c.yaml", &quest(Some("quest.c"), vec![objective(Some("quest-count-item"), 2, 0)]));
    assert_eq!(invalid.reason_code, "invalid objective shape");
    assert_eq!(invalid.reason, "invalid objective shape: quest-count-item objective 0 asks for 2 of nothing");
    let missing = classify_quest("d.yaml", &quest(Some(""), vec![objective(None, 0, 0)]));
    assert_eq!(missing.id, "d.yaml");
    assert_eq!(missing.reason, "malformed quest document: missing id");
    assert_eq!(missing.objective_kinds, vec!["unspecified".to_string()]);
    let broken = unreadable("e.yaml", "malformed quest document", "bad indentation");
    assert_eq!(broken.reason, "malformed quest document: bad indentation");
}

#[test]
fn the_summary_counts_kinds_and_reasons() {
    let results = vec![
        classify_quest("b.yaml", &quest(Some("quest.b"), vec![objective(Some("quest-count-special"), 1, 0)])),
        classify_quest("a.yaml", &quest(Some("quest.a"), vec![objective(Some("quest-count-kill"), 1, 1), objective(Some("quest-count-kill"), 1, 1)])),
        classify_quest("c.yaml", &quest(Some("quest.c"), vec![objective(Some("quest-count-item"), 2, 0)])),
    ];
    let (sorted, summary) = summarize(results);
    assert_eq!(sorted.iter().map(|q| q.id.as_str()).collect::<Vec<_>>(), vec!["quest.a", "quest.b", "quest.c"]);
    assert_eq!(summary.total_quests, 3);
    assert_eq!(summary.servable, 1);
    assert_eq!(summary.unservable, 2);
    assert_eq!(summary.objectives_extracted, 4);
    assert_eq!(
        summary.objective_kinds,
        vec![
            ("quest-count-item".to_string(), 1),
            ("quest-count-kill".to_string(), 2),
            ("quest-count-special".to_string(), 1)
        ]
    );
    assert_eq!(
        summary.reasons,
        vec![
            ("invalid objective shape".to_string(), 1),
            ("servable".to_string(), 1),
            ("unsupported objective kind".to_string(), 1)
        ]
    );
    let lines = render_table(&sorted, &summary, ScriptNodeCounts { implemented: Some(17), inert_and_counted: Some(45), refused: None });
    assert_eq!(lines[0], "QUEST    STATUS      REASON");
    assert_eq!(lines[1], "-------  ----------  ------");
    assert_eq!(lines[2], "quest.a  servable    servable");
    assert_eq!(lines[6], "1 of 3 servable, 2 unservable");
    assert_eq!(lines[7], "4 extracted objectives (quest-count-item=1, quest-count-kill=2, quest-count-special=1)");
    assert_eq!(lines[8], "script nodes: implemented=17, inert-and-counted=45, refused=not measured");
    assert!(enforce_baseline(&summary, 1, 3).is_ok());
    let regressed = enforce_baseline(&summary, 2, 3).unwrap_err();
    assert_eq!(regressed, BaselineError::Servable { found: 1, minimum: 2 });
    assert_eq!(regressed.message(), "servable quest count regressed below baseline: 1 < 2");
    assert_eq!(
        enforce_baseline(&summary, 1, 4).unwrap_err().message(),
        "total quest count regressed below baseline: 3 < 4"
    );
    assert_eq!(display_count(None), "not measured");
    assert_eq!(display_count(Some(3)), "3");
}
