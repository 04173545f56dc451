//! Classification of the forge's releases: the managed draft to keep, the
//! redundant drafts to delete, and the latest published release.
use vstd::prelude::*;
use crate::order::{key_views, stable_sort, stable_sorted, indices_below};
use crate::text::{contains, str_contains, text_eq, trim, trimmed};

verus! {

/// A release as the forge reports it.
pub struct ReleaseInfo {
    pub id: u64,
    pub body: Option<String>,
    pub draft: bool,
    pub target_commitish: String,
    pub created_at: String,
    pub published_at: Option<String>,
    pub tag_name: String,
}

/// The managed draft to keep up to date, and the redundant ones to delete.
pub struct DraftSelection {
    pub primary: Option<u64>,
    pub extras: Vec<u64>,
}

/// The body of a release, an absent body counting as empty.
pub open spec fn body_text(r: ReleaseInfo) -> Seq<char> {
    match r.body {
        Some(b) => b@,
        None => Seq::empty(),
    }
}

/// Whether the release is a draft whose body carries the marker.
pub open spec fn is_managed_draft(r: ReleaseInfo, marker: Seq<char>) -> bool {
    r.draft && contains(body_text(r), marker)
}

/// The positions of the managed drafts, in list order.
pub open spec fn managed_drafts(rs: Seq<ReleaseInfo>, marker: Seq<char>) -> Seq<usize>
    decreases rs.len(),
{
    if rs.len() == 0 {
        Seq::empty()
    } else {
        let d = managed_drafts(rs.drop_last(), marker);
        if is_managed_draft(rs.last(), marker) {
            d.push((rs.len() - 1) as usize)
        } else {
            d
        }
    }
}

/// Each release's creation time, as a sort key.
pub open spec fn created_keys(rs: Seq<ReleaseInfo>) -> Seq<Option<Seq<char>>> {
    Seq::new(rs.len(), |i: int| Some(rs[i].created_at@))
}

/// The positions of the managed drafts, newest first; drafts created at the
/// same time keep their list order.
pub open spec fn drafts_newest_first(rs: Seq<ReleaseInfo>, marker: Seq<char>) -> Seq<usize> {
    stable_sorted(managed_drafts(rs, marker), created_keys(rs), true)
}

/// Whether the release is published, targets the branch, and carries the
/// marker where one is given.
pub open spec fn is_published_candidate(
    r: ReleaseInfo,
    branch: Seq<char>,
    marker: Option<Seq<char>>,
) -> bool {
    !r.draft && r.target_commitish@ == branch && match marker {
        Some(m) => contains(body_text(r), m),
        None => true,
    }
}

/// The positions of the published candidates, in list order.
pub open spec fn published_candidates(
    rs: Seq<ReleaseInfo>,
    branch: Seq<char>,
    marker: Option<Seq<char>>,
) -> Seq<usize>
    decreases rs.len(),
{
    if rs.len() == 0 {
        Seq::empty()
    } else {
        let d = published_candidates(rs.drop_last(), branch, marker);
        if is_published_candidate(rs.last(), branch, marker) {
            d.push((rs.len() - 1) as usize)
        } else {
            d
        }
    }
}

/// When a release was published, or created where it has no publication time.
pub open spec fn publish_time(r: ReleaseInfo) -> Seq<char> {
    match r.published_at {
        Some(p) => p@,
        None => r.created_at@,
    }
}

pub open spec fn publish_keys(rs: Seq<ReleaseInfo>) -> Seq<Option<Seq<char>>> {
    Seq::new(rs.len(), |i: int| Some(publish_time(rs[i])))
}

/// The positions of the published candidates, latest first.
pub open spec fn published_latest_first(
    rs: Seq<ReleaseInfo>,
    branch: Seq<char>,
    marker: Option<Seq<char>>,
) -> Seq<usize> {
    stable_sorted(published_candidates(rs, branch, marker), publish_keys(rs), true)
}

proof fn lemma_candidates_below(rs: Seq<ReleaseInfo>, branch: Seq<char>, marker: Option<Seq<char>>)
    ensures
        indices_below(published_candidates(rs, branch, marker), rs.len()),
    decreases rs.len(),
{
    if rs.len() > 0 {
        lemma_candidates_below(rs.drop_last(), branch, marker);
    }
}

pub proof fn lemma_drafts_below(rs: Seq<ReleaseInfo>, marker: Seq<char>)
    ensures
        indices_below(managed_drafts(rs, marker), rs.len()),
    decreases rs.len(),
{
    if rs.len() > 0 {
        lemma_drafts_below(rs.drop_last(), marker);
    }
}

fn body_contains(r: &ReleaseInfo, marker: &str) -> (b: bool)
    ensures
        b == contains(body_text(*r), marker@),
{
    match &r.body {
        Some(body) => str_contains(body.as_str(), marker),
        None => {
            let n = marker.unicode_len();
            proof {
                if n == 0 {
                    assert(Seq::<char>::empty().subrange(0, 0) =~= marker@);
                    assert(crate::text::occurs_at(Seq::<char>::empty(), marker@, 0));
                }
            }
            n == 0
        },
    }
}

/// Splits the managed drafts (drafts whose body carries `marker`) into the
/// newest, which is kept, and the others, which are redundant.
pub fn select_draft_releases(releases: &[ReleaseInfo], marker: &str) -> (r: DraftSelection)
    ensures
        ({
            let d = drafts_newest_first(releases@, marker@);
            &&& r.primary == (if d.len() == 0 {
                None
            } else {
                Some(releases@[d[0] as int].id)
            })
            &&& r.extras@ == (if d.len() == 0 {
                Seq::empty()
            } else {
                d.skip(1).map_values(|i: usize| releases@[i as int].id)
            })
        }),
{
    let ghost rs = releases@;
    let mut drafts: Vec<usize> = Vec::new();
    let mut keys: Vec<Option<String>> = Vec::new();
    let mut i: usize = 0;
    while i < releases.len()
        invariant
            i <= rs.len(),
            rs == releases@,
            drafts@ == managed_drafts(rs.subrange(0, i as int), marker@),
            keys@.len() == i,
            key_views(keys@) =~= created_keys(rs.subrange(0, i as int)),
        decreases rs.len() - i,
    {
        let rel = &releases[i];
        proof {
            assert(rs.subrange(0, i + 1).drop_last() =~= rs.subrange(0, i as int));
        }
        if rel.draft && body_contains(rel, marker) {
            drafts.push(i);
        }
        let ghost old_keys = keys@;
        keys.push(Some(rel.created_at.clone()));
        proof {
            assert forall|k: int| 0 <= k < i + 1 implies key_views(keys@)[k] == created_keys(rs.subrange(0, i + 1))[k] by {
                if k < i {
                    assert(key_views(old_keys)[k] == created_keys(rs.subrange(0, i as int))[k]);
                }
            }
        }
        i += 1;
    }
    proof {
        assert(rs.subrange(0, rs.len() as int) =~= rs);
        lemma_drafts_below(rs, marker@);
    }
    let ordered = stable_sort(&drafts, &keys, true);
    let ghost d = ordered@;
    proof {
        crate::order::lemma_sorted_ordered(drafts@, key_views(keys@), true);
    }
    if ordered.len() == 0 {
        return DraftSelection { primary: None, extras: Vec::new() };
    }
    let primary = Some(releases[ordered[0]].id);
    let mut extras: Vec<u64> = Vec::new();
    let mut k: usize = 1;
    while k < ordered.len()
        invariant
            1 <= k <= d.len(),
            d == ordered@,
            rs == releases@,
            indices_below(d, rs.len()),
            extras@ =~= d.subrange(1, k as int).map_values(|i: usize| rs[i as int].id),
        decreases d.len() - k,
    {
        extras.push(releases[ordered[k]].id);
        k += 1;
    }
    assert(d.skip(1) =~= d.subrange(1, d.len() as int));
    DraftSelection { primary, extras }
}

/// The latest published release that targets `branch` (and carries `marker`,
/// where one is given), by publication time.
pub fn select_latest_published_release<'a>(
    releases: &'a [ReleaseInfo],
    branch: &str,
    marker: Option<&str>,
) -> (r: Option<&'a ReleaseInfo>)
    ensures
        ({
            let m = match marker {
                Some(s) => Some(s@),
                None => None,
            };
            let d = published_latest_first(releases@, branch@, m);
            r == (if d.len() == 0 {
                None
            } else {
                Some(&releases@[d[0] as int])
            })
        }),
{
    let ghost rs = releases@;
    let ghost m = match marker {
        Some(s) => Some(s@),
        None => None::<Seq<char>>,
    };
    let mut cands: Vec<usize> = Vec::new();
    let mut keys: Vec<Option<String>> = Vec::new();
    let mut i: usize = 0;
    while i < releases.len()
        invariant
            i <= rs.len(),
            rs == releases@,
            m == (match marker {
                Some(s) => Some(s@),
                None => None,
            }),
            cands@ == published_candidates(rs.subrange(0, i as int), branch@, m),
            keys@.len() == i,
            key_views(keys@) =~= publish_keys(rs.subrange(0, i as int)),
        decreases rs.len() - i,
    {
        let rel = &releases[i];
        proof {
            assert(rs.subrange(0, i + 1).drop_last() =~= rs.subrange(0, i as int));
        }
        let wanted = !rel.draft && text_eq(rel.target_commitish.as_str(), branch) && match marker {
            Some(mk) => body_contains(rel, mk),
            None => true,
        };
        if wanted {
            cands.push(i);
        }
        let key = match &rel.published_at {
            Some(p) => p.clone(),
            None => rel.created_at.clone(),
        };
        let ghost old_keys = keys@;
        keys.push(Some(key));
        proof {
            assert forall|k: int| 0 <= k < i + 1 implies key_views(keys@)[k] == publish_keys(rs.subrange(0, i + 1))[k] by {
                if k < i {
                    assert(key_views(old_keys)[k] == publish_keys(rs.subrange(0, i as int))[k]);
                }
            }
        }
        i += 1;
    }
    proof {
        assert(rs.subrange(0, rs.len() as int) =~= rs);
        lemma_candidates_below(rs, branch@, m);
    }
    let ordered = stable_sort(&cands, &keys, true);
    if ordered.len() == 0 {
        None
    } else {
        proof {
            crate::order::lemma_sorted_ordered(cands@, key_views(keys@), true);
        }
        Some(&releases[ordered[0]])
    }
}

/// What the decision on creating a draft still needs.
pub enum SkipCheck {
    /// A published release already covers the current commit: create nothing.
    Skip,
    /// Create or update the draft.
    Proceed,
    /// Resolve this tag to a commit and compare it with the current one.
    ResolveTag(String),
}

/// Whether the published release matches the current commit directly, does
/// not match, or must have its tag resolved first.
pub fn published_release_matches_commit(release: &ReleaseInfo, current_sha: &str) -> (r: SkipCheck)
    ensures
        release.target_commitish@ == current_sha@ ==> r is Skip,
        release.target_commitish@ != current_sha@ && trimmed(release.tag_name@).len() == 0 ==> r is Proceed,
        release.target_commitish@ != current_sha@ && trimmed(release.tag_name@).len() > 0 ==> (match r {
            SkipCheck::ResolveTag(t) => t@ == trimmed(release.tag_name@),
            _ => false,
        }),
{
    if text_eq(release.target_commitish.as_str(), current_sha) {
        return SkipCheck::Skip;
    }
    let tag = trim(release.tag_name.as_str());
    if tag.as_str().unicode_len() == 0 {
        return SkipCheck::Proceed;
    }
    SkipCheck::ResolveTag(tag)
}

} // verus!

verus! {

proof fn lemma_drafts_distinct(rs: Seq<ReleaseInfo>, marker: Seq<char>)
    requires
        rs.len() <= usize::MAX,
    ensures
        managed_drafts(rs, marker).no_duplicates(),
    decreases rs.len(),
{
    if rs.len() > 0 {
        lemma_drafts_distinct(rs.drop_last(), marker);
        lemma_drafts_below(rs.drop_last(), marker);
        let p = managed_drafts(rs.drop_last(), marker);
        let n = (rs.len() - 1) as usize;
        if is_managed_draft(rs.last(), marker) {
            assert forall|i: int, j: int| 0 <= i < p.len() + 1 && 0 <= j < p.len() + 1 && i != j implies p.push(n)[i] != p.push(n)[j] by {
                if i < p.len() && j < p.len() {
                } else if i < p.len() {
                    assert((p[i] as nat) < rs.drop_last().len());
                } else {
                    assert((p[j] as nat) < rs.drop_last().len());
                }
            }
        }
    }
}

/// Where release ids are distinct, the draft that is kept is never among
/// the drafts to delete; there is at most one kept draft by construction.
pub proof fn lemma_primary_not_in_extras(rs: Seq<ReleaseInfo>, marker: Seq<char>)
    requires
        rs.len() <= usize::MAX,
        forall|i: int, j: int| 0 <= i < j < rs.len() ==> rs[i].id != rs[j].id,
    ensures
        ({
            let d = drafts_newest_first(rs, marker);
            d.len() > 0 ==> !d.skip(1).map_values(|i: usize| rs[i as int].id).contains(
                rs[d[0] as int].id,
            )
        }),
{
    let s = managed_drafts(rs, marker);
    let d = drafts_newest_first(rs, marker);
    lemma_drafts_distinct(rs, marker);
    lemma_drafts_below(rs, marker);
    crate::order::lemma_sorted_multiset(s, created_keys(rs), true);
    crate::order::lemma_sorted_ordered(s, created_keys(rs), true);
    s.lemma_multiset_has_no_duplicates();
    d.lemma_multiset_has_no_duplicates_conv();
    if d.len() > 0 {
        let e = d.skip(1).map_values(|i: usize| rs[i as int].id);
        if e.contains(rs[d[0] as int].id) {
            let k = choose|k: int| 0 <= k < e.len() && e[k] == rs[d[0] as int].id;
            assert(d[k + 1] != d[0]);
            assert(e[k] == rs[d[k + 1] as int].id);
            assert((d[k + 1] as nat) < rs.len() && (d[0] as nat) < rs.len());
            if d[k + 1] < d[0] {
                assert(rs[d[k + 1] as int].id != rs[d[0] as int].id);
            } else {
                assert(rs[d[0] as int].id != rs[d[k + 1] as int].id);
            }
        }
    }
}


/// What `published_release_matches_commit` answers for the release and commit.
pub open spec fn commit_check(r: SkipCheck, release: ReleaseInfo, current_sha: Seq<char>) -> bool {
    if release.target_commitish@ == current_sha {
        r is Skip
    } else if trimmed(release.tag_name@).len() == 0 {
        r is Proceed
    } else {
        r matches SkipCheck::ResolveTag(t) && t@ == trimmed(release.tag_name@)
    }
}

/// Whether to create or update a draft: an existing draft is always kept
/// current; without one, a published release that already covers the
/// current commit means nothing is created.
pub fn skip_creation_check(
    primary: Option<u64>,
    latest_published: Option<&ReleaseInfo>,
    current_sha: Option<&str>,
) -> (r: SkipCheck)
    ensures
        match (primary, latest_published, current_sha) {
            (None, Some(rel), Some(sha)) => commit_check(r, *rel, sha@),
            _ => r is Proceed,
        },
{
    if primary.is_some() {
        return SkipCheck::Proceed;
    }
    match (latest_published, current_sha) {
        (Some(rel), Some(sha)) => published_release_matches_commit(rel, sha),
        _ => SkipCheck::Proceed,
    }
}


/// The decision once the published release's tag has been resolved to a
/// commit: skip where it is the current commit, else create or update.
pub fn skip_after_tag_lookup(resolved_sha: &str, current_sha: &str) -> (r: SkipCheck)
    ensures
        resolved_sha@ == current_sha@ ==> r is Skip,
        resolved_sha@ != current_sha@ ==> r is Proceed,
{
    if text_eq(resolved_sha, current_sha) {
        SkipCheck::Skip
    } else {
        SkipCheck::Proceed
    }
}

/// The time from which merged pull requests are gathered: the latest
/// published release's publication time (its creation time where it has
/// none); none where there is no published release.
pub fn pull_requests_since(latest_published: Option<&ReleaseInfo>) -> (r: Option<String>)
    ensures
        match latest_published {
            Some(rel) => r matches Some(s) && s@ == publish_time(*rel),
            None => r is None,
        },
{
    match latest_published {
        Some(rel) => match &rel.published_at {
            Some(p) => Some(p.clone()),
            None => Some(rel.created_at.clone()),
        },
        None => None,
    }
}

} // verus!
