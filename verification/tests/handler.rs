use jardedupli::handler::merge_jars;
use jardedupli::maven_coordinate::MavenCoordinates;

/// Coordinates from a JSON array with the field names of the whitelist file.
fn handler_coords_from_json(text: &str) -> Vec<MavenCoordinates> {
    let value: serde_json::Value = serde_json::from_str(text).unwrap();
    let field = |item: &serde_json::Value, name: &str| item.get(name).and_then(|v| v.as_str()).map(|s| s.to_string());
    value
        .as_array()
        .unwrap()
        .iter()
        .map(|item| MavenCoordinates {
            group_id: field(item, "groupId"),
            artifact_id: field(item, "artifactId").unwrap_or_default(),
            version: field(item, "version"),
            classifier: field(item, "classifier"),
            packaging: field(item, "packaging"),
            jar_path: field(item, "jarPath"),
        })
        .collect()
}

#[test]
fn test_read_management_file() {
    let management_file = "[{\"groupId\":\"io.netty\",\"artifactId\":\"netty-common\",\"version\":\"4.1.113.Final\"},{\"groupId\":\"org.jctools\",\"artifactId\":\"jctools-core\",\"version\":\"4.0.5\"}]";
    let source = "[{\"groupId\":\"io.netty\",\"artifactId\":\"netty-common\",\"version\":\"4.1.113.Final\"},{\"groupId\":\"org.jctoolsss\",\"artifactId\":\"jctools-core\",\"version\":\"4.0.5\"}]";
    let target = "[{\"groupId\":\"io.netty\",\"artifactId\":\"netty-common\",\"version\":\"4.4.113.Final\"},{\"groupId\":\"org.jctoolss\",\"artifactId\":\"jctools-core\",\"version\":\"4.0.5\"}]";
    let management = handler_coords_from_json(management_file);
    let source = handler_coords_from_json(source);
    let target = handler_coords_from_json(target);
    let jars = merge_jars(source, target, Some(management));
    assert!(!jars.is_empty());
    assert_eq!(jars.get("io.netty:netty-common").unwrap().version, Some("4.1.113.Final".to_string()));
    assert_eq!(jars.len(), 3);
}

#[test]
fn test_merge_jars_source_wins() {
    let source = "[{\"groupId\":\"com.example\",\"artifactId\":\"lib\",\"version\":\"1.0.0\"}]";
    let target = "[{\"groupId\":\"com.example\",\"artifactId\":\"lib\",\"version\":\"2.0.0\"}]";
    let source = handler_coords_from_json(source);
    let target = handler_coords_from_json(target);
    let result = merge_jars(source, target, None);
    assert_eq!(result.get("com.example:lib").unwrap().version, Some("1.0.0".to_string()));
}

#[test]
fn test_merge_jars_whitelist_overrides() {
    let source = "[{\"groupId\":\"com.example\",\"artifactId\":\"lib\",\"version\":\"2.0.0\"}]";
    let target = "[{\"groupId\":\"com.example\",\"artifactId\":\"lib\",\"version\":\"1.0.0\"}]";
    let management = "[{\"groupId\":\"com.example\",\"artifactId\":\"lib\",\"version\":\"1.0.0\"}]";
    let source = handler_coords_from_json(source);
    let target = handler_coords_from_json(target);
    let management = handler_coords_from_json(management);
    let result = merge_jars(source, target, Some(management));
    assert_eq!(result.get("com.example:lib").unwrap().version, Some("1.0.0".to_string()));
}

#[test]
fn test_merge_jars_jar_path_inherited() {
    let source_coord = MavenCoordinates::new(Some("com.example".into()), "lib".into(), Some("1.0.0".into()), None, None);
    let mut target_coord = MavenCoordinates::new(Some("com.example".into()), "lib".into(), Some("2.0.0".into()), None, None);
    target_coord.jar_path = Some("/path/to/lib.jar".into());
    let result = merge_jars(vec![source_coord], vec![target_coord], None);
    let merged = result.get("com.example:lib").unwrap();
    assert_eq!(merged.version, Some("1.0.0".to_string()));
    assert_eq!(merged.jar_path, Some("/path/to/lib.jar".to_string()));
}

#[test]
fn test_merge_jars_target_only() {
    let source = "[]";
    let target = "[{\"groupId\":\"com.example\",\"artifactId\":\"lib\",\"version\":\"1.0.0\"}]";
    let source = handler_coords_from_json(source);
    let target = handler_coords_from_json(target);
    let result = merge_jars(source, target, None);
    assert!(result.contains_key("com.example:lib"));
    assert_eq!(result.get("com.example:lib").unwrap().version, Some("1.0.0".to_string()));
}

#[test]
fn test_merge_jars_whitelist_inherits_jar_path() {
    let mut source_coord = MavenCoordinates::new(Some("com.example".into()), "lib".into(), Some("2.0.0".into()), None, None);
    source_coord.jar_path = Some("/path/to/lib-2.0.0.jar".into());
    let mut target_coord = MavenCoordinates::new(Some("com.example".into()), "lib".into(), Some("1.0.0".into()), None, None);
    target_coord.jar_path = Some("/path/to/lib-1.0.0.jar".into());
    let management_coord = MavenCoordinates::new(Some("com.example".into()), "lib".into(), Some("1.0.0".into()), None, None);
    let result = merge_jars(vec![source_coord], vec![target_coord], Some(vec![management_coord]));
    let merged = result.get("com.example:lib").unwrap();
    assert_eq!(merged.version, Some("1.0.0".to_string()));
    assert_eq!(merged.jar_path, Some("/path/to/lib-1.0.0.jar".to_string()));
}

#[test]
fn test_merge_jars_duplicate_source_warning() {
    let source = "[{\"groupId\":\"com.example\",\"artifactId\":\"lib\",\"version\":\"1.0.0\"},{\"groupId\":\"com.example\",\"artifactId\":\"lib\",\"version\":\"2.0.0\"}]";
    let source = handler_coords_from_json(source);
    let result = merge_jars(source, vec![], None);
    assert_eq!(result.get("com.example:lib").unwrap().version, Some("1.0.0".to_string()));
}

#[test]
fn handler_test_whitelist_picks_correct_jar_from_duplicates() {
    let mut v1 = MavenCoordinates::new(Some("com.fasterxml.jackson.core".into()), "jackson-databind".into(), Some("2.12.2".into()), None, None);
    v1.jar_path = Some("/libs/jackson-databind-2.12.2.jar".into());
    let mut v2 = MavenCoordinates::new(Some("com.fasterxml.jackson.core".into()), "jackson-databind".into(), Some("2.9.9.3".into()), None, None);
    v2.jar_path = Some("/libs/jackson-databind-2.9.9.3.jar".into());
    let whitelist_entry = MavenCoordinates::new(Some("com.fasterxml.jackson.core".into()), "jackson-databind".into(), Some("2.9.9.3".into()), None, None);
    let result = merge_jars(vec![v1, v2], vec![], Some(vec![whitelist_entry]));
    let merged = result.get("com.fasterxml.jackson.core:jackson-databind").unwrap();
    assert_eq!(merged.version, Some("2.9.9.3".to_string()));
    assert_eq!(merged.jar_path, Some("/libs/jackson-databind-2.9.9.3.jar".to_string()));
}

#[test]
fn handler_whitelist_ignored_without_conflict_and_never_blocks() {
    let src = handler_coords_from_json("[{\"groupId\":\"g\",\"artifactId\":\"a\",\"version\":\"1\"}]");
    let wl = handler_coords_from_json("[{\"groupId\":\"g\",\"artifactId\":\"a\",\"version\":\"9\"}]");
    let result = merge_jars(src, vec![], Some(wl));
    assert_eq!(result.get("g:a").unwrap().version, Some("1".to_string()));
    assert!(result.blocked().is_empty());
}

#[test]
fn handler_missing_version_conflicts_with_present_one() {
    let src = handler_coords_from_json("[{\"groupId\":\"g\",\"artifactId\":\"a\"},{\"groupId\":\"g\",\"artifactId\":\"a\",\"version\":\"2\"}]");
    let wl = handler_coords_from_json("[{\"groupId\":\"g\",\"artifactId\":\"a\",\"version\":\"2\"}]");
    let result = merge_jars(src, vec![], Some(wl));
    assert_eq!(result.get("g:a").unwrap().version, Some("2".to_string()));
}

#[test]
fn handler_whitelisted_version_never_takes_another_versions_jar() {
    let mut src = MavenCoordinates::new(Some("com.example".into()), "lib".into(), Some("2.0.0".into()), None, None);
    src.jar_path = Some("/build/lib-2.0.0.jar".into());
    let tgt = MavenCoordinates::new(Some("com.example".into()), "lib".into(), Some("1.0.0".into()), None, None);
    let wl = MavenCoordinates::new(Some("com.example".into()), "lib".into(), Some("1.0.0".into()), None, None);
    let result = merge_jars(vec![src], vec![tgt], Some(vec![wl]));
    let merged = result.get("com.example:lib").unwrap();
    assert_eq!(merged.version, Some("1.0.0".to_string()));
    assert_eq!(merged.jar_path, None);
}
