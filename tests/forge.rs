use breezy::forge::{is_last_page, merged_pull_request_query};

#[test]
fn search_query_with_and_without_since() {
    assert_eq!(
        merged_pull_request_query("o", "r", "main", None),
        "repo:o/r is:pr is:merged base:main"
    );
    assert_eq!(
        merged_pull_request_query("o", "r", "main", Some("2024-01-01T00:00:00Z")),
        "repo:o/r is:pr is:merged base:main merged:>=2024-01-01T00:00:00Z"
    );
}

#[test]
fn last_page_is_a_short_page() {
    assert!(is_last_page(3, 100));
    assert!(is_last_page(0, 100));
    assert!(!is_last_page(100, 100));
}
