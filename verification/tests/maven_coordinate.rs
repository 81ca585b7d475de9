use jardedupli::maven_coordinate::{
    extract_artifact_id_from_filename, is_jar_file_name, is_pom_properties_entry,
    parse_coordinates, parse_properties, JarError, MavenCoordinates,
};

#[test]
fn test_maven_coordinates() {
    let coordinates = MavenCoordinates::new(
        Some("com.example".to_string()),
        "example-artifact".to_string(),
        Some("1.0.0".to_string()),
        Some("jar".to_string()),
        Some("jar".to_string()),
    );
    assert_eq!(coordinates.group_id, Some("com.example".to_string()));
    assert_eq!(coordinates.artifact_id, "example-artifact".to_string());
}

#[test]
fn test_parse_properties() {
    let content = "groupId=com.example\nartifactId=example-artifact\nversion=1.0.0\nclassifier=jar\npackaging=jar";
    let coordinates = parse_properties(content).unwrap();
    assert_eq!(coordinates.group_id, Some("com.example".to_string()));
    assert_eq!(coordinates.artifact_id, "example-artifact".to_string());
    assert_eq!(coordinates.version, Some("1.0.0".to_string()));
    assert_eq!(coordinates.classifier, Some("jar".to_string()));
    assert_eq!(coordinates.packaging, Some("jar".to_string()));
}

#[test]
fn parse_properties_trims_and_handles_crlf_and_comments() {
    let content = "#Generated by Maven\r\n#Tue Jan 01 00:00:00 UTC 2024\r\n  groupId = org.demo \r\nartifactId=demo-core\r\nversion=2.3.4\r\n";
    let c = parse_properties(content).unwrap();
    assert_eq!(c.group_id, Some("org.demo".to_string()));
    assert_eq!(c.artifact_id, "demo-core");
    assert_eq!(c.version, Some("2.3.4".to_string()));
    assert_eq!(c.classifier, None);
    assert_eq!(c.packaging, None);
    assert_eq!(c.jar_path, None);
}

#[test]
fn parse_properties_later_line_wins_and_value_keeps_equals() {
    let content = "artifactId=first\nartifactId=second\nversion=a=b\nunknown=x\nnoequals";
    let c = parse_properties(content).unwrap();
    assert_eq!(c.artifact_id, "second");
    assert_eq!(c.version, Some("a=b".to_string()));
    assert_eq!(c.group_id, None);
}

#[test]
fn parse_properties_without_artifact_is_none() {
    assert!(parse_properties("groupId=g\nversion=1").is_none());
    assert!(parse_properties("artifactId=   \n").is_none());
    assert!(parse_properties("").is_none());
}

#[test]
fn to_string_formats_all_parts() {
    let c = MavenCoordinates::new(
        Some("g".to_string()),
        "a".to_string(),
        Some("1.0".to_string()),
        Some("tests".to_string()),
        Some("jar".to_string()),
    );
    assert_eq!(c.to_string(), "g:a:1.0-tests.jar");
    let bare = MavenCoordinates::new(None, "a".to_string(), None, None, None);
    assert_eq!(bare.to_string(), "a");
}

#[test]
fn parse_coordinates_forms() {
    let two = parse_coordinates("lib:1.0").unwrap();
    assert_eq!(two.group_id, None);
    assert_eq!(two.artifact_id, "lib");
    assert_eq!(two.version, Some("1.0".to_string()));
    let five = parse_coordinates("g:a:v:c:p:ignored").unwrap();
    assert_eq!(five.group_id, Some("g".to_string()));
    assert_eq!(five.artifact_id, "a");
    assert_eq!(five.version, Some("v".to_string()));
    assert_eq!(five.classifier, Some("c".to_string()));
    assert_eq!(five.packaging, Some("p".to_string()));
    assert_eq!(parse_coordinates("nocolon"), Err("Invalid Maven coordinates".to_string()));
    let parsed: MavenCoordinates = "g:a:1".parse().unwrap();
    assert_eq!(parsed.group_id, Some("g".to_string()));
}

#[test]
fn text_form_round_trip() {
    let c = MavenCoordinates::new(Some("com.x".to_string()), "y".to_string(), Some("2".to_string()), None, None);
    assert_eq!(parse_coordinates(&c.to_string()).unwrap(), c);
}

#[test]
fn extract_artifact_id_examples() {
    assert_eq!(extract_artifact_id_from_filename("zstd-jni-1.5.6-3"), Some("zstd-jni".to_string()));
    assert_eq!(extract_artifact_id_from_filename("commons-lang3-3.12.0"), Some("commons-lang3".to_string()));
    assert_eq!(extract_artifact_id_from_filename("no-version-here"), None);
    assert_eq!(extract_artifact_id_from_filename("-1"), Some("".to_string()));
}

#[test]
fn entry_and_file_name_checks() {
    assert!(is_pom_properties_entry("META-INF/maven/org.x/y/pom.properties"));
    assert!(!is_pom_properties_entry("META-INF/maven/org.x/y/pom.xml"));
    assert!(!is_pom_properties_entry("BOOT-INF/pom.properties"));
    assert!(is_jar_file_name("a-1.0.jar"));
    assert!(!is_jar_file_name("a-1.0.war"));
}

#[test]
fn from_jar_entries_reads_pom_properties() {
    let texts = vec!["groupId=g\nartifactId=a\nversion=1".to_string(), "nothing".to_string()];
    let r = MavenCoordinates::from_jar_entries("/lib/a-1.jar", &texts).unwrap();
    assert_eq!(r.len(), 1);
    assert_eq!(r[0].artifact_id, "a");
    assert_eq!(r[0].jar_path, Some("/lib/a-1.jar".to_string()));
}

#[test]
fn from_jar_entries_keeps_main_artifact_of_uber_jar() {
    let texts = vec![
        "groupId=dep\nartifactId=shaded-dep\nversion=9".to_string(),
        "groupId=g\nartifactId=app-core\nversion=1.2".to_string(),
    ];
    let r = MavenCoordinates::from_jar_entries("/lib/app-core-1.2.jar", &texts).unwrap();
    assert_eq!(r.len(), 1);
    assert_eq!(r[0].artifact_id, "app-core");
    let none_named = MavenCoordinates::from_jar_entries("/lib/other-1.2.jar", &texts).unwrap();
    assert_eq!(none_named.len(), 2);
}

#[test]
fn from_jar_entries_guesses_from_file_name() {
    let r = MavenCoordinates::from_jar_entries("/opt/lib/zstd-jni-1.5.6-3.jar", &vec![]).unwrap();
    assert_eq!(r.len(), 1);
    assert_eq!(r[0].group_id, None);
    assert_eq!(r[0].artifact_id, "zstd-jni");
    assert_eq!(r[0].version, Some("1.5.6-3".to_string()));
    assert_eq!(r[0].jar_path, Some("/opt/lib/zstd-jni-1.5.6-3.jar".to_string()));
    let plain = MavenCoordinates::from_jar_entries("/opt/lib/tools.jar", &vec![]).unwrap();
    assert_eq!(plain[0].artifact_id, "tools");
    assert_eq!(plain[0].version, None);
    let no_digit = MavenCoordinates::from_jar_entries("/opt/lib/foo-bar.jar", &vec![]).unwrap();
    assert_eq!(no_digit[0].artifact_id, "foo-bar");
    let leading = MavenCoordinates::from_jar_entries("/opt/lib/-1x.jar", &vec![]).unwrap();
    assert_eq!(leading[0].artifact_id, "-1x");
    assert_eq!(leading[0].version, None);
}

#[test]
fn from_jar_entries_rejects_non_jar_name() {
    let r = MavenCoordinates::from_jar_entries("/opt/lib/readme.txt", &vec![]);
    assert_eq!(r, Err(JarError::NotAJarFile));
    assert_eq!(JarError::NotAJarFile.message(), "Not a JAR file");
}

#[test]
fn names_are_split_by_characters() {
    let chinese = "\u{4e2d}\u{6587}";
    assert_eq!(
        extract_artifact_id_from_filename(&format!("{}-1.0", chinese)),
        Some(chinese.to_string())
    );
    let r = MavenCoordinates::from_jar_entries(&format!("/opt/lib/{}-1.0.jar", chinese), &vec![]).unwrap();
    assert_eq!(r.len(), 1);
    assert_eq!(r[0].group_id, None);
    assert_eq!(r[0].artifact_id, chinese);
    assert_eq!(r[0].version, Some("1.0".to_string()));
    let accented = MavenCoordinates::from_jar_entries("/opt/lib/\u{e9}a-1.0.jar", &vec![]).unwrap();
    assert_eq!(accented[0].artifact_id, "\u{e9}a");
    assert_eq!(accented[0].version, Some("1.0".to_string()));
    let no_version = MavenCoordinates::from_jar_entries("/opt/lib/\u{e9}-x.jar", &vec![]).unwrap();
    assert_eq!(no_version[0].artifact_id, "\u{e9}-x");
    assert_eq!(no_version[0].version, None);
    assert_eq!(extract_artifact_id_from_filename("\u{e9}-x"), None);
}
