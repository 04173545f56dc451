use breezy::version::{
    is_prerelease_version, parse_cargo_version, parse_languages, parse_node_version, resolve_version,
    Archetype, Manifests, VersionError,
};

#[test]
fn parse_package_version() {
    let content = r#"
[package]
name = "demo"
version = "0.1.0"
"#;
    assert_eq!(parse_cargo_version(content), Some("0.1.0".to_string()));
}

#[test]
fn parse_workspace_package_version() {
    let content = r#"
[workspace]
members = ["crate-a"]

[workspace.package]
version = "1.0.0-alpha.1"
"#;
    assert_eq!(
        parse_cargo_version(content),
        Some("1.0.0-alpha.1".to_string())
    );
}

#[test]
fn prefer_package_over_workspace_package() {
    let content = r#"
[workspace]
members = ["crate-a"]

[workspace.package]
version = "2.0.0"

[package]
name = "demo"
version = "3.1.4"
"#;
    assert_eq!(parse_cargo_version(content), Some("3.1.4".to_string()));
}

#[test]
fn prerelease_detection() {
    assert!(is_prerelease_version("0.1.0-a.1"));
    assert!(is_prerelease_version("5.9.0-beta.3"));
    assert!(is_prerelease_version("1.2.3-rc.1+build.7"));
    assert!(!is_prerelease_version("1.2.3"));
    assert!(!is_prerelease_version("1.2.3+build.7"));
    assert!(!is_prerelease_version("1.2"));
}

#[test]
fn prerelease_edge_cases() {
    assert!(is_prerelease_version("  1.2.3-x  "));
    assert!(!is_prerelease_version("1.2.3-"));
    assert!(!is_prerelease_version("1.2.3.4-rc"));
    assert!(!is_prerelease_version("1..3-rc"));
    assert!(!is_prerelease_version("1.a.3-rc"));
    assert!(!is_prerelease_version(""));
    assert!(!is_prerelease_version("1.2.3+b-1"));
}

#[test]
fn cargo_version_quotes_and_comments() {
    assert_eq!(parse_cargo_version("[package]\n# version = \"9\"\nversion='1.5.0'\n"), Some("1.5.0".to_string()));
    assert_eq!(parse_cargo_version("[package]\r\nversion   =   \"2.0.0\"  \r\n"), Some("2.0.0".to_string()));
    assert_eq!(parse_cargo_version("[package]\nversion = \"1.0'\n"), None);
    assert_eq!(parse_cargo_version("[dependencies]\nversion = \"1.0\"\n"), None);
    assert_eq!(parse_cargo_version(""), None);
}

fn names(list: &[&str]) -> Vec<String> {
    list.iter().map(|s| s.to_string()).collect()
}

#[test]
fn languages_split_and_lowercased() {
    assert_eq!(parse_languages(" Rust,node+ , RUST "), names(&["rust", "node", "rust"]));
    assert!(parse_languages("  , + ").is_empty());
}

#[test]
fn resolve_tries_archetypes_in_given_order() {
    let manifests = Manifests {
        cargo_toml: Some("[package]\nversion = \"1.0.0\"\n".to_string()),
        package_json: Some("{\"version\": \"2.0.0\"}".to_string()),
    };
    let info = resolve_version(&manifests, &names(&["node", "rust"])).ok().unwrap();
    assert_eq!(info.version, "2.0.0");
    let info = resolve_version(&manifests, &names(&["rust", "node"])).ok().unwrap();
    assert_eq!(info.version, "1.0.0");
}

#[test]
fn resolve_skips_absent_manifests() {
    let manifests = Manifests {
        cargo_toml: None,
        package_json: Some("{\"version\": \"0.3.0\"}".to_string()),
    };
    let info = resolve_version(&manifests, &names(&["rust", "node"])).ok().unwrap();
    assert_eq!(info.version, "0.3.0");
}

#[test]
fn resolve_reports_all_unknown_archetypes() {
    let manifests = Manifests { cargo_toml: None, package_json: None };
    match resolve_version(&manifests, &names(&["go", "rust", "java"])) {
        Err(VersionError::UnknownArchetypes(list)) => assert_eq!(list, names(&["go", "java"])),
        _ => panic!("expected unknown archetypes"),
    }
}

#[test]
fn resolve_reports_missing_manifests() {
    let manifests = Manifests { cargo_toml: None, package_json: None };
    match resolve_version(&manifests, &names(&["rust", "node"])) {
        Err(VersionError::NoManifest(list)) => assert_eq!(list, names(&["rust", "node"])),
        _ => panic!("expected no manifest"),
    }
}

#[test]
fn resolve_reports_missing_declared_version() {
    let manifests = Manifests { cargo_toml: Some("[workspace]\n".to_string()), package_json: None };
    assert!(matches!(
        resolve_version(&manifests, &names(&["rust"])),
        Err(VersionError::NoCargoVersion)
    ));
}

#[test]
fn node_manifest_errors() {
    assert!(matches!(parse_node_version("{not json"), Err(VersionError::InvalidPackageJson)));
    assert!(matches!(parse_node_version("{\"version\": 3}"), Err(VersionError::NoNodeVersion)));
    assert!(matches!(parse_node_version("{\"name\": \"x\"}"), Err(VersionError::NoNodeVersion)));
    assert!(matches!(parse_node_version("[\"version\"]"), Err(VersionError::NoNodeVersion)));
    assert!(matches!(parse_node_version("{\"a\": {\"version\": \"1\"}}"), Err(VersionError::NoNodeVersion)));
    assert_eq!(parse_node_version("{\"version\": \"4.5.6\"}").ok(), Some("4.5.6".to_string()));
}

#[test]
fn archetype_names_and_files() {
    assert!(matches!(Archetype::from_name("rust"), Some(Archetype::Rust)));
    assert!(matches!(Archetype::from_name("node"), Some(Archetype::Node)));
    assert!(Archetype::from_name("Rust").is_none());
    assert_eq!(Archetype::Rust.manifest_file(), "Cargo.toml");
    assert_eq!(Archetype::Node.manifest_file(), "package.json");
}

#[test]
fn first_present_manifest_decides_without_fallthrough() {
    let manifests = Manifests {
        cargo_toml: Some("[package]\nversion = \"1.0.0\"\n".to_string()),
        package_json: Some("{\"name\": \"x\"}".to_string()),
    };
    assert!(matches!(
        resolve_version(&manifests, &names(&["node", "rust"])),
        Err(VersionError::NoNodeVersion)
    ));
    let manifests = Manifests { cargo_toml: None, package_json: Some("{oops".to_string()) };
    assert!(matches!(
        resolve_version(&manifests, &names(&["node"])),
        Err(VersionError::InvalidPackageJson)
    ));
}
