use sarnaut::locale::{add_requests, is_loc_ref, locale_document, resolve_locale, LocaleError};

fn utf16le(text: &str) -> Vec<u8> {
    let mut bytes = vec![0xFF, 0xFE];
    for unit in text.encode_utf16() {
        bytes.extend_from_slice(&unit.to_le_bytes());
    }
    bytes
}

const QUEST: &str = "World/Quests/TestZone/Quest_1_10";
const MOB_NAME: &str = "Creatures/Zombie/Instances/TestZone/Zombie1_Name.txt";

/// The zone's requests, gathered from its two referring files as the
/// extractor gathers them.
fn requests() -> Vec<String> {
    let mut requests = Vec::new();
    let mob_hrefs = vec![
        "Zombie1_Name.txt".to_string(),
        "/Mechanics/Creatures/Zombie/ZombieKind.(MobKind).xdb#x".to_string(),
    ];
    add_requests(&mut requests, "/src", "/src/Creatures/Zombie/Instances/TestZone/Zombie1.(MobWorld).xdb", &mob_hrefs);
    let quest_hrefs: Vec<String> = ["Name.txt", "GoalText.txt", "StartText.txt", "CheckText.txt", "FinishText.txt", "Absent.txt"]
        .iter()
        .map(|s| s.to_string())
        .collect();
    add_requests(&mut requests, "/src", &format!("/src/{QUEST}/Quest_1_10.xdb"), &quest_hrefs);
    requests
}

fn read(root: &[(String, Vec<u8>)], requests: &[String]) -> Vec<Option<Vec<u8>>> {
    requests
        .iter()
        .map(|r| root.iter().find(|(p, _)| p == r).map(|(_, b)| b.clone()))
        .collect()
}

#[test]
fn resolves_from_both_roots_and_reports_what_it_could_not_find() {
    let requests = requests();
    assert_eq!(requests.len(), 7);
    let primary_files = vec![(format!("{QUEST}/Name.txt"), utf16le("Костёр"))];
    let mut supplemental_files: Vec<(String, Vec<u8>)> = [
        ("Name.txt", "Костёр (старый билд)"),
        ("GoalText.txt", "Цель"),
        ("StartText.txt", "Начало"),
        ("CheckText.txt", "Проверка"),
        ("FinishText.txt", "Конец"),
    ]
    .iter()
    .map(|(f, t)| (format!("{QUEST}/{f}"), utf16le(t)))
    .collect();
    supplemental_files.push((MOB_NAME.to_string(), utf16le("Зомби")));
    let out = resolve_locale(
        "test-zone",
        &requests,
        &read(&primary_files, &requests),
        &read(&supplemental_files, &requests),
    )
    .expect("resolves");
    assert_eq!(out.entries.len(), 6);
    assert_eq!(out.from_primary, 1);
    assert_eq!(out.from_supplemental, 5);
    assert_eq!(out.encodings, vec![("utf-16le".to_string(), 7)]);
    assert_eq!(out.unresolved, vec![format!("{QUEST}/Absent")]);
    assert_eq!(out.mismatched, vec![format!("{QUEST}/Name")]);
    assert_eq!(out.document_root, "classic-server-1-1");
    let zombie = out.entries.iter().find(|e| e.text == "Зомби").expect("mob name");
    assert_eq!(zombie.source_root, None);
    let name = out.entries.iter().find(|e| e.key == format!("{QUEST}/Name")).expect("quest name");
    assert_eq!(name.text, "Костёр");
    assert_eq!(name.source_root.as_deref(), Some("classic-server-1-1-02-0"));
}

#[test]
fn a_missing_loc_ref_target_is_counted_not_fatal() {
    let requests = requests();
    let primary_files = vec![(MOB_NAME.to_string(), utf16le("Зомби"))];
    let none: Vec<Option<Vec<u8>>> = requests.iter().map(|_| None).collect();
    let out = resolve_locale("test-zone", &requests, &read(&primary_files, &requests), &none).expect("one resolves");
    assert_eq!(out.entries.len(), 1);
    assert_eq!(out.unresolved.len(), 6);
    assert!(out.unresolved.len() * 100 > 85 * requests.len());
    assert_eq!(out.document_root, "classic-server-1-1-02-0");
}

#[test]
fn nothing_resolved_is_an_error_and_only_txt_hrefs_are_requests() {
    let requests = requests();
    let none: Vec<Option<Vec<u8>>> = requests.iter().map(|_| None).collect();
    let error = resolve_locale("test-zone", &requests, &none, &none).unwrap_err();
    assert_eq!(error, LocaleError::NoneResolved { zone: "test-zone".into() });
    assert_eq!(error.message(), "no loc_ref resolved for zone test-zone; nothing to write");
    assert!(is_loc_ref("Name.TXT#x"));
    assert!(!is_loc_ref("Kind.xdb#x.txt"));
}

#[test]
fn the_locale_document_is_named_for_its_zone_and_digests_its_requests() {
    let requests = vec!["A/Name.txt".to_string(), "B/Goal.txt".to_string()];
    let primary = vec![Some(b"First".to_vec()), None];
    let supplemental = vec![None, Some(b"Second".to_vec())];
    let resolution = resolve_locale("TestZone", &requests, &primary, &supplemental).expect("resolved");
    let root = resolution.document_root.clone();
    let document = locale_document("ru", "TestZone", &requests, resolution, "sarnaut-extract@0.1.0");
    assert_eq!(document.id, "locale.ru.test-zone");
    assert_eq!(document.source_type, "locTxt");
    assert_eq!(document.source_root, root);
    assert_eq!(document.entries.len(), 2);
    assert_eq!(document.source.path, "test-zone loc_ref closure");
    assert_eq!(document.source.blake3, blake3::hash(b"A/Name.txt\nB/Goal.txt").to_hex().to_string());
    assert_eq!(document.source.source_root.as_deref(), Some(root.as_str()));
}
