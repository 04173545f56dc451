use breezy::release::{
    published_release_matches_commit, select_draft_releases, select_latest_published_release,
    pull_requests_since, skip_after_tag_lookup, skip_creation_check, ReleaseInfo, SkipCheck,
};

fn release(id: u64, draft: bool, body: Option<&str>, created: &str, published: Option<&str>) -> ReleaseInfo {
    ReleaseInfo {
        id,
        body: body.map(|b| b.to_string()),
        draft,
        target_commitish: "main".to_string(),
        created_at: created.to_string(),
        published_at: published.map(|p| p.to_string()),
        tag_name: format!("v{id}"),
    }
}

const MARKER: &str = "<!-- breezy:branch=main -->";

#[test]
fn newest_managed_draft_is_primary() {
    let releases = vec![
        release(1, true, Some("x <!-- breezy:branch=main --> y"), "2024-01-01", None),
        release(2, true, Some("<!-- breezy:branch=main -->"), "2024-03-01", None),
        release(3, true, Some("<!-- breezy:branch=dev -->"), "2024-04-01", None),
        release(4, false, Some("<!-- breezy:branch=main -->"), "2024-05-01", Some("2024-05-01")),
        release(5, true, None, "2024-06-01", None),
        release(6, true, Some("<!-- breezy:branch=main -->"), "2024-02-01", None),
    ];
    let selection = select_draft_releases(&releases, MARKER);
    assert_eq!(selection.primary, Some(2));
    assert_eq!(selection.extras, vec![6, 1]);
    assert!(!selection.extras.contains(&2));
}

#[test]
fn no_managed_draft() {
    let releases = vec![release(1, false, Some(MARKER), "2024-01-01", None)];
    let selection = select_draft_releases(&releases, MARKER);
    assert_eq!(selection.primary, None);
    assert!(selection.extras.is_empty());
}

#[test]
fn draft_ties_keep_list_order() {
    let releases = vec![
        release(1, true, Some(MARKER), "2024-01-01", None),
        release(2, true, Some(MARKER), "2024-01-01", None),
    ];
    let selection = select_draft_releases(&releases, MARKER);
    assert_eq!(selection.primary, Some(1));
    assert_eq!(selection.extras, vec![2]);
}

#[test]
fn latest_published_uses_publication_time() {
    let mut other_branch = release(9, false, None, "2025-01-01", Some("2025-01-01"));
    other_branch.target_commitish = "dev".to_string();
    let releases = vec![
        release(1, false, None, "2024-01-01", Some("2024-06-01")),
        release(2, false, None, "2024-05-01", None),
        release(3, true, None, "2024-12-01", None),
        other_branch,
    ];
    let latest = select_latest_published_release(&releases, "main", None).unwrap();
    assert_eq!(latest.id, 1);
    assert!(select_latest_published_release(&releases, "feature", None).is_none());
    let scoped = select_latest_published_release(&releases, "main", Some(MARKER));
    assert!(scoped.is_none());
}

#[test]
fn commit_match_decisions() {
    let mut rel = release(1, false, None, "2024-01-01", None);
    rel.target_commitish = "abc".to_string();
    assert!(matches!(published_release_matches_commit(&rel, "abc"), SkipCheck::Skip));
    rel.tag_name = "  v1.0.0 ".to_string();
    match published_release_matches_commit(&rel, "def") {
        SkipCheck::ResolveTag(tag) => assert_eq!(tag, "v1.0.0"),
        _ => panic!("expected a tag to resolve"),
    }
    rel.tag_name = "   ".to_string();
    assert!(matches!(published_release_matches_commit(&rel, "def"), SkipCheck::Proceed));
}

#[test]
fn existing_draft_is_never_skipped() {
    let mut rel = release(1, false, None, "2024-01-01", None);
    rel.target_commitish = "abc".to_string();
    assert!(matches!(skip_creation_check(Some(4), Some(&rel), Some("abc")), SkipCheck::Proceed));
    assert!(matches!(skip_creation_check(None, Some(&rel), Some("abc")), SkipCheck::Skip));
    assert!(matches!(skip_creation_check(None, None, Some("abc")), SkipCheck::Proceed));
    assert!(matches!(skip_creation_check(None, Some(&rel), None), SkipCheck::Proceed));
}

#[test]
fn tag_lookup_decision() {
    assert!(matches!(skip_after_tag_lookup("abc", "abc"), SkipCheck::Skip));
    assert!(matches!(skip_after_tag_lookup("abc", "abd"), SkipCheck::Proceed));
}

#[test]
fn since_uses_publication_then_creation_time() {
    let published = release(1, false, None, "2024-01-01", Some("2024-02-01"));
    let unpublished = release(2, false, None, "2024-03-01", None);
    assert_eq!(pull_requests_since(Some(&published)), Some("2024-02-01".to_string()));
    assert_eq!(pull_requests_since(Some(&unpublished)), Some("2024-03-01".to_string()));
    assert_eq!(pull_requests_since(None), None);
}
