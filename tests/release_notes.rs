use breezy::config::{RawCategory, RawConfig, ReleaseCategory, ReleaseConfig};
use breezy::notes::{
    apply_change_template, build_changes, build_release_notes, normalized, normalized_labels,
    release_marker, PullRequestInfo,
};

fn base_config(with_template: bool) -> ReleaseConfig {
    ReleaseConfig {
        language: None,
        tag_template: None,
        name_template: None,
        categories: vec![ReleaseCategory {
            title: "Features".to_string(),
            labels: vec!["feature".to_string()],
        }],
        exclude_labels: vec!["skip-log".to_string()],
        change_template: "* $TITLE @$AUTHOR ($NUMBER)".to_string(),
        template: if with_template {
            Some("## Changes\n\n$CHANGES".to_string())
        } else {
            None
        },
    }
}

fn pr(number: u64, title: &str, author: &str, labels: &[&str], merged_at: Option<&str>) -> PullRequestInfo {
    PullRequestInfo {
        number,
        title: title.to_string(),
        author: author.to_string(),
        labels: labels.iter().map(|l| l.to_string()).collect(),
        url: format!("https://github.com/o/r/pull/{number}"),
        merged_at: merged_at.map(|m| m.to_string()),
    }
}

#[test]
fn renders_categories_and_urls() {
    let config = base_config(true);
    let marker = release_marker("main");
    let pull_requests = vec![
        PullRequestInfo {
            number: 1,
            title: "Add login".to_string(),
            author: "alice".to_string(),
            labels: vec!["feature".to_string()],
            url: "https://github.com/o/r/pull/1".to_string(),
            merged_at: Some("2024-01-01T00:00:00Z".to_string()),
        },
        PullRequestInfo {
            number: 2,
            title: "Fix bug".to_string(),
            author: "bob".to_string(),
            labels: vec!["bug".to_string()],
            url: "https://github.com/o/r/pull/2".to_string(),
            merged_at: Some("2024-01-02T00:00:00Z".to_string()),
        },
        PullRequestInfo {
            number: 3,
            title: "Chore".to_string(),
            author: "cam".to_string(),
            labels: vec!["skip-log".to_string()],
            url: "https://github.com/o/r/pull/3".to_string(),
            merged_at: Some("2024-01-03T00:00:00Z".to_string()),
        },
    ];

    let notes = build_release_notes(&marker, &pull_requests, Some(&config));

    let expected = [
        marker.as_str(),
        "",
        "## Changes",
        "",
        "## Features",
        "* Add login @alice (1)",
        "",
        "## Other Changes",
        "* Fix bug @bob (2)",
    ]
    .join("\n");

    assert_eq!(notes, expected);
}

#[test]
fn returns_marker_when_no_changes() {
    let config = base_config(false);
    let marker = release_marker("main");
    let notes = build_release_notes(&marker, &[], Some(&config));

    assert_eq!(notes, marker);
}

#[test]
fn marker_has_fixed_shape() {
    assert_eq!(release_marker("main"), "<!-- breezy:branch=main -->");
    assert_eq!(release_marker("feat/x"), "<!-- breezy:branch=feat/x -->");
}

#[test]
fn plain_notes_list_titles_in_merge_order() {
    let marker = release_marker("main");
    let prs = vec![
        pr(1, "Add login", "a", &[], Some("2024-01-01")),
        pr(2, "Fix bug", "b", &[], Some("2024-01-02")),
    ];
    let notes = build_release_notes(&marker, &prs, None);
    assert_eq!(notes, "<!-- breezy:branch=main -->\n\nAdd login\nFix bug");
}

#[test]
fn plain_notes_without_pull_requests_are_the_marker() {
    let marker = release_marker("dev");
    assert_eq!(build_release_notes(&marker, &[], None), marker);
}

#[test]
fn order_follows_merge_time_not_input_order() {
    let marker = release_marker("main");
    let prs = vec![
        pr(3, "Third", "c", &[], Some("2024-03-01")),
        pr(1, "First", "a", &[], None),
        pr(2, "Second", "b", &[], Some("2024-02-01")),
    ];
    let notes = build_release_notes(&marker, &prs, None);
    assert_eq!(notes, format!("{marker}\n\nFirst\nSecond\nThird"));
}

#[test]
fn equal_merge_times_keep_input_order() {
    let marker = release_marker("main");
    let prs = vec![
        pr(5, "B", "x", &[], Some("2024-01-01")),
        pr(4, "A", "x", &[], Some("2024-01-01")),
    ];
    assert_eq!(build_release_notes(&marker, &prs, None), format!("{marker}\n\nB\nA"));
}

#[test]
fn duplicate_numbers_give_one_line_with_first_data() {
    let marker = release_marker("main");
    let prs = vec![
        pr(7, "Original", "a", &[], Some("2024-01-01")),
        pr(8, "Other", "b", &[], Some("2024-01-02")),
        pr(7, "Copy", "a", &[], Some("2024-01-01")),
    ];
    let notes = build_release_notes(&marker, &prs, None);
    assert_eq!(notes, format!("{marker}\n\nOriginal\nOther"));
}

#[test]
fn excluded_label_wins_over_category() {
    let config = base_config(false);
    let prs = vec![
        pr(1, "Both", "a", &["feature", "skip-log"], Some("2024-01-01")),
        pr(2, "Kept", "b", &["feature"], Some("2024-01-02")),
    ];
    let changes = build_changes(&prs, &config);
    assert_eq!(changes, "## Features\n* Kept @b (2)");
}

#[test]
fn category_and_other_buckets_with_number_template() {
    let mut config = base_config(false);
    config.change_template = "* $TITLE @$AUTHOR (#$NUMBER)".to_string();
    let prs = vec![
        pr(1, "Add login", "alice", &["feature"], Some("2024-01-01")),
        pr(2, "Fix bug", "bob", &["bug"], Some("2024-01-02")),
        pr(3, "Chore", "cam", &["skip-log"], Some("2024-01-03")),
    ];
    let notes = build_release_notes("M", &prs, Some(&config));
    assert_eq!(
        notes,
        "M\n\n## Features\n* Add login @alice (#1)\n\n## Other Changes\n* Fix bug @bob (#2)"
    );
    assert!(!notes.contains("Chore"));
}

#[test]
fn wrapping_template_with_no_pull_requests_gives_marker() {
    let mut config = base_config(true);
    config.template = Some("\n$CHANGES\n".to_string());
    let marker = release_marker("main");
    assert_eq!(build_release_notes(&marker, &[], Some(&config)), marker);
}

#[test]
fn wrapping_template_text_stays_without_changes() {
    let config = base_config(true);
    let marker = release_marker("main");
    assert_eq!(
        build_release_notes(&marker, &[], Some(&config)),
        format!("{marker}\n\n## Changes\n\n")
    );
}

#[test]
fn no_categories_means_no_heading() {
    let mut config = base_config(false);
    config.categories = vec![];
    let prs = vec![pr(1, "Solo", "a", &["x"], Some("2024-01-01"))];
    assert_eq!(
        build_changes(&prs, &config),
        "* Solo @a (1)"
    );
}

#[test]
fn first_matching_category_claims() {
    let mut config = base_config(false);
    config.change_template = "$TITLE".to_string();
    config.categories = vec![
        ReleaseCategory { title: "One".to_string(), labels: vec!["a".to_string()] },
        ReleaseCategory { title: "Two".to_string(), labels: vec!["b".to_string()] },
        ReleaseCategory { title: "Empty".to_string(), labels: vec![] },
    ];
    let prs = vec![pr(1, "Both", "x", &["B", " a "], Some("1")), pr(2, "OnlyB", "x", &["b"], Some("2"))];
    assert_eq!(build_changes(&prs, &config), "## One\nBoth\n\n## Two\nOnlyB");
}

#[test]
fn change_template_placeholders() {
    let p = pr(9, "T", "u", &[], None);
    assert_eq!(
        apply_change_template("$TITLE|$AUTHOR|$NUMBER|$PR_URL|$OTHER", &p),
        "T|u|9|https://github.com/o/r/pull/9|$OTHER"
    );
}

#[test]
fn labels_are_trimmed_lowercased_and_nonempty() {
    assert_eq!(normalized("  FeAture "), "feature");
    let labels = vec![" Bug ".to_string(), "   ".to_string(), "DOCS".to_string()];
    assert_eq!(normalized_labels(&labels), vec!["bug".to_string(), "docs".to_string()]);
}

#[test]
fn raw_config_is_normalized() {
    let raw = RawConfig {
        language: Some("  Rust ".to_string()),
        tag_template: Some(" v$VERSION ".to_string()),
        name_template: None,
        categories: Some(vec![RawCategory {
            title: "Fixes".to_string(),
            labels: Some(vec![" BUG ".to_string(), "".to_string()]),
            label: Some("Fix".to_string()),
        }]),
        exclude_labels: Some(vec!["Skip".to_string()]),
        change_template: Some("   ".to_string()),
        template: Some(" $CHANGES \n".to_string()),
    };
    let config = ReleaseConfig::from_raw(raw);
    assert_eq!(config.language.as_deref(), Some("rust"));
    assert_eq!(config.tag_template.as_deref(), Some("v$VERSION"));
    assert_eq!(config.name_template, None);
    assert_eq!(config.categories.len(), 1);
    assert_eq!(config.categories[0].title, "Fixes");
    assert_eq!(config.categories[0].labels, vec!["bug".to_string(), "fix".to_string()]);
    assert_eq!(config.exclude_labels, vec!["skip".to_string()]);
    assert_eq!(config.change_template, "$TITLE");
    assert_eq!(config.template.as_deref(), Some("$CHANGES"));
}

#[test]
fn composing_twice_gives_the_same_body() {
    let config = base_config(true);
    let marker = release_marker("main");
    let prs = vec![
        pr(2, "Fix bug", "bob", &["bug"], Some("2024-01-02")),
        pr(1, "Add login", "alice", &["feature"], Some("2024-01-01")),
    ];
    let first = build_release_notes(&marker, &prs, Some(&config));
    let second = build_release_notes(&marker, &prs, Some(&config));
    assert_eq!(first, second);
    assert_eq!(build_release_notes(&marker, &prs, None), build_release_notes(&marker, &prs, None));
}

#[test]
fn number_placeholder_uses_decimal_number() {
    let p = pr(1204, "T", "u", &[], None);
    assert_eq!(apply_change_template("#$NUMBER $PR_URL", &p), "#1204 https://github.com/o/r/pull/1204");
    let zero = pr(0, "Z", "u", &[], None);
    assert_eq!(apply_change_template("$NUMBER", &zero), "0");
    let big = pr(u64::MAX, "B", "u", &[], None);
    assert_eq!(apply_change_template("$NUMBER", &big), "18446744073709551615");
}
