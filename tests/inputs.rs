use breezy::config::ReleaseConfig;
use breezy::inputs::{
    apply_template, format_scope_label, input_key, parse_repository, resolve_branch,
    resolve_current_sha, resolve_directory, resolve_language, resolve_release_name,
    resolve_tag_name, scoped_directory, InputError,
};

fn config_with(tag: Option<&str>, name: Option<&str>, language: Option<&str>) -> ReleaseConfig {
    ReleaseConfig {
        language: language.map(|s| s.to_string()),
        tag_template: tag.map(|s| s.to_string()),
        name_template: name.map(|s| s.to_string()),
        categories: vec![],
        exclude_labels: vec![],
        change_template: "$TITLE".to_string(),
        template: None,
    }
}

#[test]
fn input_keys() {
    assert_eq!(input_key("github token"), "INPUT_GITHUB_TOKEN");
    assert_eq!(input_key("tag-prefix"), "INPUT_TAG-PREFIX");
}

#[test]
fn language_from_input_or_config() {
    assert_eq!(resolve_language(" rust ", None).ok(), Some("rust".to_string()));
    let config = config_with(None, None, Some(" node "));
    assert_eq!(resolve_language("  ", Some(&config)).ok(), Some("node".to_string()));
    assert!(matches!(resolve_language("", None), Err(InputError::MissingLanguage)));
}

#[test]
fn tag_and_name() {
    assert_eq!(resolve_tag_name("1.2.3", " v ", None, None), "v1.2.3");
    let config = config_with(Some("$DIRECTORY-$VERSION"), Some("Release $VERSION"), None);
    assert_eq!(resolve_tag_name("1.2.3", "v", Some("app"), Some(&config)), "app-1.2.3");
    assert_eq!(resolve_release_name("1.2.3", "v1.2.3", "main", None, Some(&config)), "Release 1.2.3");
    assert_eq!(resolve_release_name("1.2.3", "v1.2.3", "main", Some("app"), None), "v1.2.3 (main/app)");
    assert_eq!(apply_template("$VERSION/$DIRECTORY", "2", None), "2/");
}

#[test]
fn scope_labels() {
    assert_eq!(format_scope_label("main", None), "main");
    assert_eq!(format_scope_label("main", Some("  ")), "main");
    assert_eq!(format_scope_label("main", Some("pkg")), "main/pkg");
}

#[test]
fn repositories() {
    let (owner, repo) = parse_repository("octo/hello").ok().unwrap();
    assert_eq!((owner.as_str(), repo.as_str()), ("octo", "hello"));
    assert!(matches!(parse_repository("octo"), Err(InputError::InvalidRepository)));
    assert!(matches!(parse_repository("/hello"), Err(InputError::InvalidRepository)));
    assert!(matches!(parse_repository("octo/"), Err(InputError::InvalidRepository)));
}

#[test]
fn branches() {
    assert_eq!(resolve_branch(Some(" feat "), Some("main"), None).ok(), Some("feat".to_string()));
    assert_eq!(resolve_branch(Some(" "), Some("main"), None).ok(), Some("main".to_string()));
    assert_eq!(resolve_branch(None, None, Some("refs/heads/dev")).ok(), Some("dev".to_string()));
    assert!(matches!(resolve_branch(None, None, Some("refs/tags/v1")), Err(InputError::UnknownBranch)));
    assert!(matches!(resolve_branch(None, None, None), Err(InputError::UnknownBranch)));
}

#[test]
fn current_sha() {
    assert_eq!(resolve_current_sha(Some(" abc ")), Some("abc".to_string()));
    assert_eq!(resolve_current_sha(Some("  ")), None);
    assert_eq!(resolve_current_sha(None), None);
}

#[test]
fn directories() {
    assert_eq!(resolve_directory(None).ok(), Some(None));
    assert_eq!(resolve_directory(Some("  ")).ok(), Some(None));
    assert_eq!(resolve_directory(Some("./")).ok(), Some(None));
    assert_eq!(resolve_directory(Some(" ./packages/app/ ")).ok(), Some(Some("packages/app".to_string())));
    assert_eq!(resolve_directory(Some("././x")).ok(), Some(Some("x".to_string())));
    assert!(matches!(resolve_directory(Some("/abs/path")), Err(InputError::AbsoluteDirectory)));
}

#[test]
fn scoped_directories() {
    assert!(matches!(scoped_directory("pkg", true), Err(InputError::AbsoluteDirectory)));
    assert_eq!(scoped_directory("./pkg/a", false).ok(), Some(Some("pkg/a".to_string())));
    assert_eq!(scoped_directory("././.", false).ok(), Some(None));
    assert_eq!(scoped_directory("", false).ok(), Some(None));
}
