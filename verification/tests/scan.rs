use sarnaut::scan::{directory_matches, loc_key, resolve_href, sort_paths, strip_txt};

#[test]
fn resolves_rooted_relative_and_parent_hrefs() {
    let src = "/src";
    let referrer = "/src/Mechanics/MobQualities/Common.xdb";
    assert_eq!(
        resolve_href(src, referrer, "/World/Factions/Wild.xdb#xpointer(/Faction)")
            .unwrap()
            .1,
        "World/Factions/Wild.xdb"
    );
    assert_eq!(
        resolve_href(src, referrer, "QualityPrototype.xdb#x")
            .unwrap()
            .1,
        "Mechanics/MobQualities/QualityPrototype.xdb"
    );
    assert_eq!(
        resolve_href(src, referrer, "../MobClasses/Default.xdb")
            .unwrap()
            .1,
        "Mechanics/MobClasses/Default.xdb"
    );
    assert_eq!(resolve_href(src, referrer, ""), None);
}

#[test]
fn resolution_returns_the_cleaned_path_and_refuses_escapes() {
    let src = "/src";
    let referrer = "/src/Mechanics/MobQualities/Common.xdb";
    assert_eq!(
        resolve_href(src, referrer, " ./Shared/../Other.xdb "),
        Some((
            "/src/Mechanics/MobQualities/Other.xdb".to_owned(),
            "Mechanics/MobQualities/Other.xdb".to_owned()
        ))
    );
    assert_eq!(resolve_href(src, referrer, "../../../../etc/passwd"), None);
    assert_eq!(resolve_href(src, referrer, "#only"), None);
    assert_eq!(
        resolve_href(src, referrer, "\\World\\Factions\\Wild.xdb").unwrap().1,
        "World/Factions/Wild.xdb"
    );
}

#[test]
fn loc_keys_drop_the_txt_suffix_in_any_case() {
    let src = "/src";
    let referrer = "/src/Creatures/Zombie/Instances/TestZone/Zombie1.xdb";
    assert_eq!(
        loc_key(src, referrer, "Zombie1_Name.TXT"),
        Some("Creatures/Zombie/Instances/TestZone/Zombie1_Name".to_owned())
    );
    assert_eq!(strip_txt("Name.txt"), "Name");
    assert_eq!(strip_txt("txt"), "txt");
    assert_eq!(strip_txt("Name.xdb"), "Name.xdb");
}

#[test]
fn directories_match_by_case_or_slug() {
    assert!(directory_matches("ZoneLeague1", "zoneleague1"));
    assert!(directory_matches("Zone_League1", "ZoneLeague1"));
    assert!(directory_matches("Test_Zone", "TestZone"));
    assert!(!directory_matches("Other", "TestZone"));
}

#[test]
fn paths_sort_case_insensitively() {
    let mut paths = vec![
        "b/Two.xdb".to_owned(),
        "B/one.xdb".to_owned(),
        "a/Z.xdb".to_owned(),
    ];
    sort_paths(&mut paths);
    assert_eq!(paths, vec!["a/Z.xdb", "B/one.xdb", "b/Two.xdb"]);
}
