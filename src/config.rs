//! The release configuration, as the composer and the naming rules read it.
use vstd::prelude::*;
use crate::notes::{normalized_labels, normalized_seq};
use crate::text::{clone_strings, lower_of, lowercase, trim, trimmed, views};

verus! {

/// A named changelog bucket, matched by pull-request label.
pub struct ReleaseCategory {
    pub title: String,
    pub labels: Vec<String>,
}

/// The configuration of release naming and of the changelog.
pub struct ReleaseConfig {
    pub language: Option<String>,
    pub tag_template: Option<String>,
    pub name_template: Option<String>,
    pub categories: Vec<ReleaseCategory>,
    pub exclude_labels: Vec<String>,
    pub change_template: String,
    pub template: Option<String>,
}


/// A category as the configuration file states it.
pub struct RawCategory {
    pub title: String,
    pub labels: Option<Vec<String>>,
    pub label: Option<String>,
}

/// The configuration as the configuration file states it.
pub struct RawConfig {
    pub language: Option<String>,
    pub tag_template: Option<String>,
    pub name_template: Option<String>,
    pub categories: Option<Vec<RawCategory>>,
    pub exclude_labels: Option<Vec<String>>,
    pub change_template: Option<String>,
    pub template: Option<String>,
}

pub open spec fn trimmed_opt(o: Option<String>) -> Option<Seq<char>> {
    match o {
        Some(s) => Some(trimmed(s@)),
        None => None,
    }
}

pub open spec fn view_opt(o: Option<String>) -> Option<Seq<char>> {
    match o {
        Some(s) => Some(s@),
        None => None,
    }
}

/// All labels a raw category names: its list, then its single label.
pub open spec fn raw_category_labels(c: RawCategory) -> Seq<String> {
    (match c.labels {
        Some(v) => v@,
        None => Seq::empty(),
    }) + (match c.label {
        Some(l) => seq![l],
        None => Seq::empty(),
    })
}

pub open spec fn raw_categories(raw: RawConfig) -> Seq<RawCategory> {
    match raw.categories {
        Some(v) => v@,
        None => Seq::empty(),
    }
}

/// The change template a raw configuration yields: its own, trimmed, unless
/// that is absent or blank, else `$TITLE`.
pub open spec fn change_template_of(raw: RawConfig) -> Seq<char> {
    match raw.change_template {
        Some(t) => if trimmed(t@).len() > 0 {
            trimmed(t@)
        } else {
            "$TITLE"@
        },
        None => "$TITLE"@,
    }
}

/// The labels trimmed and lower-cased, those that become empty left out.
pub fn normalize_labels(labels: Vec<String>) -> (r: Vec<String>)
    ensures
        views(r@) == normalized_seq(labels@),
{
    normalized_labels(labels.as_slice())
}

fn trim_opt(o: &Option<String>) -> (r: Option<String>)
    ensures
        view_opt(r) == trimmed_opt(*o),
{
    match o {
        Some(s) => Some(trim(s.as_str())),
        None => None,
    }
}

impl ReleaseConfig {
    /// The configuration with its texts trimmed, the language lower-cased,
    /// labels normalized and the change template defaulted.
    pub fn from_raw(raw: RawConfig) -> (r: ReleaseConfig)
        ensures
            view_opt(r.language) == match raw.language {
                Some(l) => Some(lower_of(trimmed(l@))),
                None => None,
            },
            view_opt(r.tag_template) == trimmed_opt(raw.tag_template),
            view_opt(r.name_template) == trimmed_opt(raw.name_template),
            view_opt(r.template) == trimmed_opt(raw.template),
            r.change_template@ == change_template_of(raw),
            views(r.exclude_labels@) == normalized_seq(
                match raw.exclude_labels {
                    Some(v) => v@,
                    None => Seq::empty(),
                },
            ),
            r.categories@.len() == raw_categories(raw).len(),
            forall|k: int|
                0 <= k < r.categories@.len() ==> (#[trigger] r.categories@[k]).title
                    == raw_categories(raw)[k].title && views(r.categories@[k].labels@)
                    == normalized_seq(raw_category_labels(raw_categories(raw)[k])),
    {
        let ghost cats = raw_categories(raw);
        let empty: Vec<RawCategory> = Vec::new();
        let raw_cats = match &raw.categories {
            Some(v) => v,
            None => &empty,
        };
        let mut categories: Vec<ReleaseCategory> = Vec::new();
        let mut k: usize = 0;
        while k < raw_cats.len()
            invariant
                k <= cats.len(),
                raw_cats@ == cats,
                categories@.len() == k,
                forall|m: int|
                    0 <= m < k ==> (#[trigger] categories@[m]).title == cats[m].title && views(
                        categories@[m].labels@,
                    ) == normalized_seq(raw_category_labels(cats[m])),
            decreases cats.len() - k,
        {
            let c = &raw_cats[k];
            let mut labels: Vec<String> = match &c.labels {
                Some(list) => clone_strings(list.as_slice()),
                None => Vec::new(),
            };
            match &c.label {
                Some(l) => labels.push(l.clone()),
                None => {},
            }
            assert(labels@ =~= raw_category_labels(*c));
            let labels = normalize_labels(labels);
            categories.push(ReleaseCategory { title: c.title.clone(), labels });
            k += 1;
        }
        let exclude = match &raw.exclude_labels {
            Some(v) => clone_strings(v.as_slice()),
            None => Vec::new(),
        };
        let change_template = match &raw.change_template {
            Some(t) => {
                let tt = trim(t.as_str());
                if tt.as_str().unicode_len() > 0 {
                    tt
                } else {
                    String::from_str("$TITLE")
                }
            },
            None => String::from_str("$TITLE"),
        };
        let language = match &raw.language {
            Some(l) => {
                let t = trim(l.as_str());
                Some(lowercase(t.as_str()))
            },
            None => None,
        };
        ReleaseConfig {
            language,
            tag_template: trim_opt(&raw.tag_template),
            name_template: trim_opt(&raw.name_template),
            categories,
            exclude_labels: normalize_labels(exclude),
            change_template,
            template: trim_opt(&raw.template),
        }
    }
}

} // verus!
