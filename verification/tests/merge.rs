use jardedupli::maven_coordinate::MavenCoordinates;
use jardedupli::merge::{duplicate_whitelist_keys, make_key, merge_jars, Strategy};

/// Coordinates from a JSON array with the field names of the whitelist file.
fn merge_coords_from_json(text: &str) -> Vec<MavenCoordinates> {
    let value: serde_json::Value = serde_json::from_str(text).unwrap();
    let field = |item: &serde_json::Value, name: &str| item.get(name).and_then(|v| v.as_str()).map(|s| s.to_string());
    value
        .as_array()
        .unwrap()
        .iter()
        .map(|item| MavenCoordinates {
            group_id: field(item, "groupId"),
            artifact_id: field(item, "artifactId").unwrap_or_default(),
            version: field(item, "version"),
            classifier: field(item, "classifier"),
            packaging: field(item, "packaging"),
            jar_path: field(item, "jarPath"),
        })
        .collect()
}

#[test]
fn test_merge_jars_source_wins_on_conflict_without_whitelist() {
    let source = "[{\"groupId\":\"com.example\",\"artifactId\":\"lib\",\"version\":\"1.0.0\"}]";
    let target = "[{\"groupId\":\"com.example\",\"artifactId\":\"lib\",\"version\":\"2.0.0\"}]";
    let source = merge_coords_from_json(source);
    let target = merge_coords_from_json(target);
    let result = merge_jars(source, target, None, Strategy::Source);
    assert_eq!(result.get("com.example:lib").unwrap().version, Some("1.0.0".to_string()));
}

#[test]
fn test_merge_jars_target_wins_when_strategy_target() {
    let source = "[{\"groupId\":\"com.example\",\"artifactId\":\"lib\",\"version\":\"1.0.0\"}]";
    let target = "[{\"groupId\":\"com.example\",\"artifactId\":\"lib\",\"version\":\"2.0.0\"}]";
    let source = merge_coords_from_json(source);
    let target = merge_coords_from_json(target);
    let result = merge_jars(source, target, None, Strategy::Target);
    assert_eq!(result.get("com.example:lib").unwrap().version, Some("2.0.0".to_string()));
}

#[test]
fn test_merge_jars_whitelist_overrides_conflict() {
    let source = "[{\"groupId\":\"com.example\",\"artifactId\":\"lib\",\"version\":\"2.0.0\"}]";
    let target = "[{\"groupId\":\"com.example\",\"artifactId\":\"lib\",\"version\":\"1.0.0\"}]";
    let management = "[{\"groupId\":\"com.example\",\"artifactId\":\"lib\",\"version\":\"1.0.0\"}]";
    let source = merge_coords_from_json(source);
    let target = merge_coords_from_json(target);
    let management = merge_coords_from_json(management);
    let result = merge_jars(source, target, Some(management), Strategy::Source);
    assert_eq!(result.get("com.example:lib").unwrap().version, Some("1.0.0".to_string()));
}

#[test]
fn test_merge_jars_jar_path_inherited_from_target_when_source_missing() {
    let source_coord = MavenCoordinates::new(Some("com.example".into()), "lib".into(), Some("1.0.0".into()), None, None);
    let mut target_coord = MavenCoordinates::new(Some("com.example".into()), "lib".into(), Some("1.0.0".into()), None, None);
    target_coord.jar_path = Some("/path/to/lib.jar".into());
    let result = merge_jars(vec![source_coord], vec![target_coord], None, Strategy::Source);
    let merged = result.get("com.example:lib").unwrap();
    assert_eq!(merged.version, Some("1.0.0".to_string()));
    assert_eq!(merged.jar_path, Some("/path/to/lib.jar".to_string()));
}

#[test]
fn test_merge_jars_target_only_preserved() {
    let source = "[]";
    let target = "[{\"groupId\":\"com.example\",\"artifactId\":\"lib\",\"version\":\"1.0.0\"}]";
    let source = merge_coords_from_json(source);
    let target = merge_coords_from_json(target);
    let result = merge_jars(source, target, None, Strategy::Source);
    assert!(result.contains_key("com.example:lib"));
    assert_eq!(result.get("com.example:lib").unwrap().version, Some("1.0.0".to_string()));
}

#[test]
fn test_merge_jars_whitelist_inherits_jar_path_from_matched_version() {
    let mut source_coord = MavenCoordinates::new(Some("com.example".into()), "lib".into(), Some("2.0.0".into()), None, None);
    source_coord.jar_path = Some("/path/to/lib-2.0.0.jar".into());
    let mut target_coord = MavenCoordinates::new(Some("com.example".into()), "lib".into(), Some("1.0.0".into()), None, None);
    target_coord.jar_path = Some("/path/to/lib-1.0.0.jar".into());
    let management_coord = MavenCoordinates::new(Some("com.example".into()), "lib".into(), Some("1.0.0".into()), None, None);
    let result = merge_jars(vec![source_coord], vec![target_coord], Some(vec![management_coord]), Strategy::Source);
    let merged = result.get("com.example:lib").unwrap();
    assert_eq!(merged.version, Some("1.0.0".to_string()));
    assert_eq!(merged.jar_path, Some("/path/to/lib-1.0.0.jar".to_string()));
}

#[test]
fn test_merge_jars_duplicate_source_keys_first_wins() {
    let source = "[{\"groupId\":\"com.example\",\"artifactId\":\"lib\",\"version\":\"1.0.0\"},{\"groupId\":\"com.example\",\"artifactId\":\"lib\",\"version\":\"2.0.0\"}]";
    let source = merge_coords_from_json(source);
    let result = merge_jars(source, vec![], None, Strategy::Source);
    assert_eq!(result.get("com.example:lib").unwrap().version, Some("1.0.0".to_string()));
}

#[test]
fn merge_test_whitelist_picks_correct_jar_from_duplicates() {
    let mut v1 = MavenCoordinates::new(Some("com.fasterxml.jackson.core".into()), "jackson-databind".into(), Some("2.12.2".into()), None, None);
    v1.jar_path = Some("/libs/jackson-databind-2.12.2.jar".into());
    let mut v2 = MavenCoordinates::new(Some("com.fasterxml.jackson.core".into()), "jackson-databind".into(), Some("2.9.9.3".into()), None, None);
    v2.jar_path = Some("/libs/jackson-databind-2.9.9.3.jar".into());
    let whitelist_entry = MavenCoordinates::new(Some("com.fasterxml.jackson.core".into()), "jackson-databind".into(), Some("2.9.9.3".into()), None, None);
    let result = merge_jars(vec![v1, v2], vec![], Some(vec![whitelist_entry]), Strategy::Source);
    let merged = result.get("com.fasterxml.jackson.core:jackson-databind").unwrap();
    assert_eq!(merged.version, Some("2.9.9.3".to_string()));
    assert_eq!(merged.jar_path, Some("/libs/jackson-databind-2.9.9.3.jar".to_string()));
}

#[test]
fn test_snapshot_same_version_strategy_source_picks_source_path() {
    let mut src = MavenCoordinates::new(Some("com.iss.cms.fsmc".into()), "cms.fsmc.impl".into(), Some("0.0.1-SNAPSHOT".into()), None, None);
    src.jar_path = Some("/build/cms.fsmc.impl-0.0.1-SNAPSHOT.jar".into());
    let mut tgt = MavenCoordinates::new(Some("com.iss.cms.fsmc".into()), "cms.fsmc.impl".into(), Some("0.0.1-SNAPSHOT".into()), None, None);
    tgt.jar_path = Some("/deploy/lib/cms.fsmc.impl-0.0.1-SNAPSHOT.jar".into());
    let result = merge_jars(vec![src.clone()], vec![tgt], None, Strategy::Source);
    let merged = result.get("com.iss.cms.fsmc:cms.fsmc.impl").unwrap();
    assert_eq!(merged.version, Some("0.0.1-SNAPSHOT".to_string()));
    assert_eq!(merged.jar_path.as_deref(), Some("/build/cms.fsmc.impl-0.0.1-SNAPSHOT.jar"));
}

#[test]
fn test_snapshot_same_version_strategy_target_keeps_target_path() {
    let mut src = MavenCoordinates::new(Some("com.iss.cms.fsmc".into()), "cms.fsmc.impl".into(), Some("0.0.1-SNAPSHOT".into()), None, None);
    src.jar_path = Some("/build/cms.fsmc.impl-0.0.1-SNAPSHOT.jar".into());
    let mut tgt = MavenCoordinates::new(Some("com.iss.cms.fsmc".into()), "cms.fsmc.impl".into(), Some("0.0.1-SNAPSHOT".into()), None, None);
    tgt.jar_path = Some("/deploy/lib/cms.fsmc.impl-0.0.1-SNAPSHOT.jar".into());
    let result = merge_jars(vec![src], vec![tgt.clone()], None, Strategy::Target);
    let merged = result.get("com.iss.cms.fsmc:cms.fsmc.impl").unwrap();
    assert_eq!(merged.jar_path.as_deref(), Some("/deploy/lib/cms.fsmc.impl-0.0.1-SNAPSHOT.jar"));
}

#[test]
fn test_whitelist_excludes_when_version_not_in_candidates() {
    let mut src = MavenCoordinates::new(Some("com.example".into()), "lib".into(), Some("2.0.0".into()), None, None);
    src.jar_path = Some("/build/lib-2.0.0.jar".into());
    let mut tgt = MavenCoordinates::new(Some("com.example".into()), "lib".into(), Some("1.0.0".into()), None, None);
    tgt.jar_path = Some("/deploy/lib-1.0.0.jar".into());
    let wl = MavenCoordinates::new(Some("com.example".into()), "lib".into(), Some("9.9.9-notexist".into()), None, None);
    let result = merge_jars(vec![src], vec![tgt], Some(vec![wl]), Strategy::Source);
    assert!(!result.contains_key("com.example:lib"), "写错版本号应屏蔽该包");
}

#[test]
fn test_whitelist_excludes_single_version_no_conflict() {
    let mut src = MavenCoordinates::new(Some("com.example".into()), "lib".into(), Some("1.0.0".into()), None, None);
    src.jar_path = Some("/build/lib-1.0.0.jar".into());
    let wl = MavenCoordinates::new(Some("com.example".into()), "lib".into(), Some("9.9.9".into()), None, None);
    let result = merge_jars(vec![src], vec![], Some(vec![wl]), Strategy::Source);
    assert!(!result.contains_key("com.example:lib"));
}

#[test]
fn test_whitelist_arbitrate_single_version_matched() {
    let mut src = MavenCoordinates::new(Some("com.example".into()), "lib".into(), Some("1.0.0".into()), None, None);
    src.jar_path = Some("/build/lib-1.0.0.jar".into());
    let wl = MavenCoordinates::new(Some("com.example".into()), "lib".into(), Some("1.0.0".into()), None, None);
    let result = merge_jars(vec![src], vec![], Some(vec![wl]), Strategy::Source);
    assert!(result.contains_key("com.example:lib"));
    assert_eq!(result.get("com.example:lib").unwrap().version, Some("1.0.0".to_string()));
}

#[test]
fn test_whitelist_exclude_only_blocks_matched_key() {
    let mut a = MavenCoordinates::new(Some("com.example".into()), "a".into(), Some("1.0.0".into()), None, None);
    a.jar_path = Some("/build/a-1.0.0.jar".into());
    let mut b = MavenCoordinates::new(Some("com.example".into()), "b".into(), Some("1.0.0".into()), None, None);
    b.jar_path = Some("/build/b-1.0.0.jar".into());
    let wl = MavenCoordinates::new(Some("com.example".into()), "a".into(), Some("9.9.9".into()), None, None);
    let result = merge_jars(vec![a, b], vec![], Some(vec![wl]), Strategy::Source);
    assert!(!result.contains_key("com.example:a"), "a 应被屏蔽");
    assert!(result.contains_key("com.example:b"), "b 不受影响");
}

#[test]
fn merge_result_is_sorted_and_lists_blocked_keys() {
    let src = merge_coords_from_json(
        "[{\"groupId\":\"z\",\"artifactId\":\"last\",\"version\":\"1\"},{\"artifactId\":\"plain\",\"version\":\"1\"},{\"groupId\":\"a\",\"artifactId\":\"first\",\"version\":\"1\"},{\"groupId\":\"m\",\"artifactId\":\"gone\",\"version\":\"1\"}]",
    );
    let wl = merge_coords_from_json("[{\"groupId\":\"m\",\"artifactId\":\"gone\",\"version\":\"2\"}]");
    let result = merge_jars(src, vec![], Some(wl), Strategy::Source);
    let keys: Vec<&str> = result.entries().iter().map(|(k, _)| k.as_str()).collect();
    assert_eq!(keys, vec!["a:first", "plain", "z:last"]);
    assert_eq!(result.len(), 3);
    assert!(!result.is_empty());
    assert_eq!(result.blocked(), &vec![("m:gone".to_string(), Some("2".to_string()))]);
}

#[test]
fn merge_first_whitelist_entry_wins() {
    let src = merge_coords_from_json("[{\"groupId\":\"g\",\"artifactId\":\"a\",\"version\":\"1\"},{\"groupId\":\"g\",\"artifactId\":\"a\",\"version\":\"2\"}]");
    let wl = merge_coords_from_json("[{\"groupId\":\"g\",\"artifactId\":\"a\",\"version\":\"2\"},{\"groupId\":\"g\",\"artifactId\":\"a\",\"version\":\"1\"}]");
    assert_eq!(duplicate_whitelist_keys(&wl), vec!["g:a".to_string()]);
    let result = merge_jars(src, vec![], Some(wl), Strategy::Source);
    assert_eq!(result.get("g:a").unwrap().version, Some("2".to_string()));
}

#[test]
fn make_key_with_and_without_group() {
    let with_group = MavenCoordinates::new(Some("org.x".to_string()), "core".to_string(), None, None, None);
    assert_eq!(make_key(&with_group), "org.x:core");
    let without = MavenCoordinates::new(None, "core".to_string(), Some("1".to_string()), None, None);
    assert_eq!(make_key(&without), "core");
    assert!(with_group.to_string().starts_with(&make_key(&with_group)));
}

#[test]
fn merge_target_strategy_falls_back_to_source() {
    let src = merge_coords_from_json("[{\"groupId\":\"g\",\"artifactId\":\"only-src\",\"version\":\"1\",\"jarPath\":\"/b/x.jar\"}]");
    let result = merge_jars(src, vec![], None, Strategy::Target);
    let e = result.get("g:only-src").unwrap();
    assert_eq!(e.version, Some("1".to_string()));
    assert_eq!(e.jar_path, Some("/b/x.jar".to_string()));
    assert!(result.get("g:missing").is_none());
}

#[test]
fn whitelisted_version_never_takes_another_versions_jar() {
    let mut src = MavenCoordinates::new(Some("com.example".into()), "lib".into(), Some("2.0.0".into()), None, None);
    src.jar_path = Some("/build/lib-2.0.0.jar".into());
    let tgt = MavenCoordinates::new(Some("com.example".into()), "lib".into(), Some("1.0.0".into()), None, None);
    let wl = MavenCoordinates::new(Some("com.example".into()), "lib".into(), Some("1.0.0".into()), None, None);
    let result = merge_jars(vec![src], vec![tgt], Some(vec![wl]), Strategy::Source);
    let merged = result.get("com.example:lib").unwrap();
    assert_eq!(merged.version, Some("1.0.0".to_string()));
    assert_eq!(merged.jar_path, None);
}

#[test]
fn whitelisted_version_takes_jar_of_same_version_candidate() {
    let src = MavenCoordinates::new(Some("g".into()), "a".into(), Some("1".into()), None, None);
    let mut other = MavenCoordinates::new(Some("g".into()), "a".into(), Some("2".into()), None, None);
    other.jar_path = Some("/b/a-2.jar".into());
    let mut tgt = MavenCoordinates::new(Some("g".into()), "a".into(), Some("1".into()), None, None);
    tgt.jar_path = Some("/d/a-1.jar".into());
    let wl = MavenCoordinates::new(Some("g".into()), "a".into(), Some("1".into()), None, None);
    let result = merge_jars(vec![src, other], vec![tgt], Some(vec![wl]), Strategy::Source);
    let merged = result.get("g:a").unwrap();
    assert_eq!(merged.version, Some("1".to_string()));
    assert_eq!(merged.jar_path, Some("/d/a-1.jar".to_string()));
}
