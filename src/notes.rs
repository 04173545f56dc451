//! Composition of the release body: marker, then the changelog assembled from
//! merged pull requests.
use vstd::prelude::*;
use crate::config::{ReleaseCategory, ReleaseConfig};
use crate::order::{key_views, stable_sort, stable_sorted, indices_below};
use crate::text::{
    decimal, decimal_text,
    join_lines, join_with_newlines, lower_of, lowercase, push_text, replace_all, replace_text, text_eq,
    trim, trimmed, views,
};

verus! {

/// A merged pull request, as fetched for one run.
pub struct PullRequestInfo {
    pub number: u64,
    pub title: String,
    pub author: String,
    pub labels: Vec<String>,
    pub url: String,
    pub merged_at: Option<String>,
}

/// The marker that ties a release body to `branch`: `<!-- breezy:branch=<branch> -->`.
pub open spec fn marker_of(branch: Seq<char>) -> Seq<char> {
    "<!-- breezy:branch="@ + branch + " -->"@
}

/// The marker that ties a release body to `branch`.
pub fn release_marker(branch: &str) -> (r: String)
    ensures
        r@ == marker_of(branch@),
{
    let mut r = String::new();
    push_text(&mut r, "<!-- breezy:branch=");
    push_text(&mut r, branch);
    push_text(&mut r, " -->");
    r
}

/// Whether an earlier pull request in `prs` than position `i` has the same number.
pub open spec fn seen_before(prs: Seq<PullRequestInfo>, i: int) -> bool {
    exists|k: int| 0 <= k < i && prs[k].number == prs[i].number
}

/// The positions of the first occurrence of each pull-request number, in list order.
pub open spec fn first_occurrences(prs: Seq<PullRequestInfo>) -> Seq<usize>
    decreases prs.len(),
{
    if prs.len() == 0 {
        Seq::empty()
    } else {
        let d = first_occurrences(prs.drop_last());
        if seen_before(prs, prs.len() - 1) {
            d
        } else {
            d.push((prs.len() - 1) as usize)
        }
    }
}

/// Each pull request's merge time, as a sort key.
pub open spec fn merge_keys(prs: Seq<PullRequestInfo>) -> Seq<Option<Seq<char>>> {
    Seq::new(prs.len(), |i: int| crate::order::key_view(prs[i].merged_at))
}

/// The positions of the pull requests in processing order: first occurrences
/// only, ascending by merge time, an absent time first, ties in list order.
pub open spec fn canonical_positions(prs: Seq<PullRequestInfo>) -> Seq<usize> {
    stable_sorted(first_occurrences(prs), merge_keys(prs), false)
}

/// The pull requests in processing order.
pub open spec fn canonical_order(prs: Seq<PullRequestInfo>) -> Seq<PullRequestInfo> {
    canonical_positions(prs).map_values(|i: usize| prs[i as int])
}

proof fn lemma_first_occurrences_below(prs: Seq<PullRequestInfo>)
    ensures
        indices_below(first_occurrences(prs), prs.len()),
    decreases prs.len(),
{
    if prs.len() > 0 {
        lemma_first_occurrences_below(prs.drop_last());
    }
}

/// The positions of the pull requests in processing order.
fn canonical_positions_exec(prs: &[PullRequestInfo]) -> (r: Vec<usize>)
    ensures
        r@ == canonical_positions(prs@),
        indices_below(r@, prs@.len()),
{
    let ghost ps = prs@;
    let mut firsts: Vec<usize> = Vec::new();
    let mut keys: Vec<Option<String>> = Vec::new();
    let mut i: usize = 0;
    while i < prs.len()
        invariant
            i <= ps.len(),
            ps == prs@,
            firsts@ == first_occurrences(ps.subrange(0, i as int)),
            keys@.len() == i,
            key_views(keys@) =~= merge_keys(ps.subrange(0, i as int)),
        decreases ps.len() - i,
    {
        let number = prs[i].number;
        let mut k: usize = 0;
        let mut seen = false;
        while k < i
            invariant
                i < ps.len(),
                ps == prs@,
                k <= i,
                number == ps[i as int].number,
                seen == exists|m: int| 0 <= m < k && ps[m].number == number,
            decreases i - k,
        {
            if prs[k].number == number {
                seen = true;
            }
            k += 1;
        }
        proof {
            let p = ps.subrange(0, i + 1);
            assert(p.drop_last() =~= ps.subrange(0, i as int));
            if seen {
                let m = choose|m: int| 0 <= m < i && ps[m].number == number;
                assert(p[m].number == p[i as int].number);
            } else {
                assert forall|m: int| 0 <= m < i implies p[m].number != p[i as int].number by {
                    assert(p[m] == ps[m]);
                }
            }
        }
        if !seen {
            firsts.push(i);
        }
        let ghost old_keys = keys@;
        let key = match &prs[i].merged_at {
            Some(m) => Some(m.clone()),
            None => None,
        };
        keys.push(key);
        proof {
            assert forall|k: int| 0 <= k < i + 1 implies key_views(keys@)[k] == merge_keys(ps.subrange(0, i + 1))[k] by {
                if k < i {
                    assert(key_views(old_keys)[k] == merge_keys(ps.subrange(0, i as int))[k]);
                }
            }
        }
        i += 1;
    }
    proof {
        assert(ps.subrange(0, ps.len() as int) =~= ps);
        lemma_first_occurrences_below(ps);
        crate::order::lemma_sorted_ordered(firsts@, key_views(keys@), false);
    }
    stable_sort(&firsts, &keys, false)
}

/// The release body without configuration: the marker alone where there are
/// no pull requests, else the marker, a blank line and one title per line.
pub open spec fn plain_notes(marker: Seq<char>, prs: Seq<PullRequestInfo>) -> Seq<char> {
    let titles = canonical_order(prs).map_values(|p: PullRequestInfo| p.title@);
    if titles.len() == 0 {
        marker
    } else {
        marker + "\n\n"@ + join_lines(titles)
    }
}

fn plain_release_notes(marker: &str, pull_requests: &[PullRequestInfo]) -> (r: String)
    ensures
        r@ == plain_notes(marker@, pull_requests@),
{
    let ghost ps = pull_requests@;
    let order = canonical_positions_exec(pull_requests);
    let mut titles: Vec<String> = Vec::new();
    let mut i: usize = 0;
    while i < order.len()
        invariant
            i <= order@.len(),
            ps == pull_requests@,
            order@ == canonical_positions(ps),
            indices_below(order@, ps.len()),
            titles@.len() == i,
            canonical_order(ps).len() == order@.len(),
            views(titles@) =~= canonical_order(ps).subrange(0, i as int).map_values(
                |p: PullRequestInfo| p.title@,
            ),
        decreases order@.len() - i,
    {
        let ghost old_titles = titles@;
        titles.push(pull_requests[order[i]].title.clone());
        proof {
            let c = canonical_order(ps);
            assert(c[i as int] == ps[order@[i as int] as int]);
            assert forall|k: int| 0 <= k < i + 1 implies views(titles@)[k] == c.subrange(0, i + 1).map_values(|p: PullRequestInfo| p.title@)[k] by {
                if k < i {
                    assert(views(old_titles)[k] == c.subrange(0, i as int).map_values(|p: PullRequestInfo| p.title@)[k]);
                }
            }
        }
        i += 1;
    }
    let mut r = String::new();
    push_text(&mut r, marker);
    if titles.len() == 0 {
        assert(canonical_order(ps).subrange(0, 0).len() == 0);
        return r;
    }
    push_text(&mut r, "\n\n");
    let joined = join_with_newlines(&titles);
    push_text(&mut r, joined.as_str());
    assert(canonical_order(ps).subrange(0, i as int) =~= canonical_order(ps));
    r
}


/// A label as it is compared: trimmed, then lower-cased.
pub open spec fn norm(l: Seq<char>) -> Seq<char> {
    lower_of(trimmed(l))
}

/// The normalized labels, those that normalize to empty left out.
pub open spec fn normalized_seq(labels: Seq<String>) -> Seq<Seq<char>>
    decreases labels.len(),
{
    if labels.len() == 0 {
        Seq::empty()
    } else {
        let d = normalized_seq(labels.drop_last());
        let n = norm(labels.last()@);
        if n.len() > 0 {
            d.push(n)
        } else {
            d
        }
    }
}

/// Whether some label of `wanted` matches some label of `labels`, both normalized.
pub open spec fn labels_meet(labels: Seq<String>, wanted: Seq<String>) -> bool {
    exists|j: int|
        0 <= j < wanted.len() && norm(#[trigger] wanted[j]@).len() > 0 && normalized_seq(
            labels,
        ).contains(norm(wanted[j]@))
}

/// A label, trimmed and lower-cased.
pub fn normalized(label: &str) -> (r: String)
    ensures
        r@ == norm(label@),
{
    let t = trim(label);
    lowercase(t.as_str())
}

/// The labels trimmed and lower-cased, those that become empty left out.
pub fn normalized_labels(labels: &[String]) -> (r: Vec<String>)
    ensures
        views(r@) == normalized_seq(labels@),
{
    let mut r: Vec<String> = Vec::new();
    let mut i: usize = 0;
    while i < labels.len()
        invariant
            i <= labels@.len(),
            views(r@) == normalized_seq(labels@.subrange(0, i as int)),
        decreases labels@.len() - i,
    {
        let n = normalized(labels[i].as_str());
        proof {
            assert(labels@.subrange(0, i + 1).drop_last() =~= labels@.subrange(0, i as int));
        }
        if n.as_str().unicode_len() > 0 {
            let ghost old_r = r@;
            r.push(n);
            assert(views(r@) =~= views(old_r).push(n@));
        }
        i += 1;
    }
    assert(labels@.subrange(0, labels@.len() as int) =~= labels@);
    r
}

fn contains_text(v: &Vec<String>, s: &str) -> (r: bool)
    ensures
        r == views(v@).contains(s@),
{
    let mut i: usize = 0;
    while i < v.len()
        invariant
            i <= v@.len(),
            forall|k: int| 0 <= k < i ==> v@[k]@ != s@,
        decreases v@.len() - i,
    {
        if text_eq(v[i].as_str(), s) {
            assert(views(v@)[i as int] == s@);
            return true;
        }
        i += 1;
    }
    assert forall|k: int| 0 <= k < views(v@).len() implies views(v@)[k] != s@ by {
        assert(views(v@)[k] == v@[k]@);
    }
    false
}

/// Whether one of the pull request's labels matches one of `category_labels`.
pub fn has_matching_label(pull_request: &PullRequestInfo, category_labels: &Vec<String>) -> (r:
    bool)
    ensures
        r == labels_meet(pull_request.labels@, category_labels@),
{
    if category_labels.len() == 0 {
        return false;
    }
    let labels = normalized_labels(pull_request.labels.as_slice());
    let mut j: usize = 0;
    while j < category_labels.len()
        invariant
            j <= category_labels@.len(),
            views(labels@) == normalized_seq(pull_request.labels@),
            forall|m: int|
                0 <= m < j ==> !(norm(#[trigger] category_labels@[m]@).len() > 0 && normalized_seq(
                    pull_request.labels@,
                ).contains(norm(category_labels@[m]@))),
        decreases category_labels@.len() - j,
    {
        let n = normalized(category_labels[j].as_str());
        if n.as_str().unicode_len() > 0 && contains_text(&labels, n.as_str()) {
            return true;
        }
        j += 1;
    }
    false
}

/// Whether the pull request carries one of the configured excluded labels.
pub open spec fn excluded(pr: PullRequestInfo, cfg: ReleaseConfig) -> bool {
    labels_meet(pr.labels@, cfg.exclude_labels@)
}

/// Whether the pull request carries one of the configured excluded labels.
pub fn is_excluded(pull_request: &PullRequestInfo, config: &ReleaseConfig) -> (r: bool)
    ensures
        r == excluded(*pull_request, *config),
{
    has_matching_label(pull_request, &config.exclude_labels)
}

/// Whether category `k` matches the pull request's labels.
pub open spec fn in_category(pr: PullRequestInfo, cfg: ReleaseConfig, k: int) -> bool {
    labels_meet(pr.labels@, cfg.categories@[k].labels@)
}

/// Whether category `k` claims the pull request: it is not excluded, `k`
/// matches, and no earlier category does.
pub open spec fn claimed(pr: PullRequestInfo, cfg: ReleaseConfig, k: int) -> bool {
    &&& !excluded(pr, cfg)
    &&& 0 <= k < cfg.categories@.len()
    &&& in_category(pr, cfg, k)
    &&& forall|j: int| 0 <= j < k ==> !in_category(pr, cfg, j)
}

/// Whether the pull request is listed but claimed by no category.
pub open spec fn unclaimed(pr: PullRequestInfo, cfg: ReleaseConfig) -> bool {
    &&& !excluded(pr, cfg)
    &&& forall|j: int| 0 <= j < cfg.categories@.len() ==> !in_category(pr, cfg, j)
}

/// One changelog line: the change template with `$TITLE`, `$AUTHOR`,
/// `$NUMBER` (the decimal number) and `$PR_URL` (the link) substituted.
pub open spec fn render(pr: PullRequestInfo, template: Seq<char>) -> Seq<char> {
    let a = replace_all(template, "$TITLE"@, pr.title@);
    let b = replace_all(a, "$AUTHOR"@, pr.author@);
    let c = replace_all(b, "$NUMBER"@, decimal(pr.number as nat));
    replace_all(c, "$PR_URL"@, pr.url@)
}

/// One changelog line for the pull request.
pub fn apply_change_template(template: &str, pull_request: &PullRequestInfo) -> (r: String)
    ensures
        r@ == render(*pull_request, template@),
{
    proof {
        reveal_strlit("$TITLE");
        reveal_strlit("$AUTHOR");
        reveal_strlit("$NUMBER");
        reveal_strlit("$PR_URL");
    }
    let a = replace_text(template, "$TITLE", pull_request.title.as_str());
    let b = replace_text(a.as_str(), "$AUTHOR", pull_request.author.as_str());
    let number = decimal_text(pull_request.number);
    let c = replace_text(b.as_str(), "$NUMBER", number.as_str());
    replace_text(c.as_str(), "$PR_URL", pull_request.url.as_str())
}

/// The lines of category `k`, in processing order.
pub open spec fn category_lines(ord: Seq<PullRequestInfo>, cfg: ReleaseConfig, k: int) -> Seq<
    Seq<char>,
>
    decreases ord.len(),
{
    if ord.len() == 0 {
        Seq::empty()
    } else {
        let d = category_lines(ord.drop_last(), cfg, k);
        if claimed(ord.last(), cfg, k) {
            d.push(render(ord.last(), cfg.change_template@))
        } else {
            d
        }
    }
}

/// The lines of the pull requests that no category claims, in processing order.
pub open spec fn other_lines(ord: Seq<PullRequestInfo>, cfg: ReleaseConfig) -> Seq<Seq<char>>
    decreases ord.len(),
{
    if ord.len() == 0 {
        Seq::empty()
    } else {
        let d = other_lines(ord.drop_last(), cfg);
        if unclaimed(ord.last(), cfg) {
            d.push(render(ord.last(), cfg.change_template@))
        } else {
            d
        }
    }
}

/// A bucket: nothing where it has no lines, else its heading, its lines and
/// a blank separator.
pub open spec fn bucket(heading: Seq<Seq<char>>, lines: Seq<Seq<char>>) -> Seq<Seq<char>> {
    if lines.len() == 0 {
        Seq::empty()
    } else {
        heading + lines + seq![Seq::<char>::empty()]
    }
}

pub open spec fn category_heading(c: ReleaseCategory) -> Seq<char> {
    "## "@ + c.title@
}

/// The lines of the buckets of the first `n` categories, in declared order.
pub open spec fn category_buckets(ord: Seq<PullRequestInfo>, cfg: ReleaseConfig, n: nat) -> Seq<
    Seq<char>,
>
    decreases n,
{
    if n == 0 {
        Seq::empty()
    } else {
        category_buckets(ord, cfg, (n - 1) as nat) + bucket(
            seq![category_heading(cfg.categories@[n - 1])],
            category_lines(ord, cfg, n - 1),
        )
    }
}

/// The heading of the bucket of unclaimed pull requests: `## Other Changes`
/// where categories are configured, none otherwise.
pub open spec fn other_heading(cfg: ReleaseConfig) -> Seq<Seq<char>> {
    if cfg.categories@.len() > 0 {
        seq!["## Other Changes"@]
    } else {
        Seq::empty()
    }
}

/// All changelog lines, before trailing blanks are trimmed.
pub open spec fn changelog_lines(ord: Seq<PullRequestInfo>, cfg: ReleaseConfig) -> Seq<Seq<char>> {
    category_buckets(ord, cfg, cfg.categories@.len()) + bucket(
        other_heading(cfg),
        other_lines(ord, cfg),
    )
}

/// The lines with trailing empty lines removed.
pub open spec fn without_trailing_blanks(lines: Seq<Seq<char>>) -> Seq<Seq<char>>
    decreases lines.len(),
{
    if lines.len() > 0 && lines.last().len() == 0 {
        without_trailing_blanks(lines.drop_last())
    } else {
        lines
    }
}

/// The changelog text for the pull requests under the configuration.
pub open spec fn changes_text(prs: Seq<PullRequestInfo>, cfg: ReleaseConfig) -> Seq<char> {
    join_lines(without_trailing_blanks(changelog_lines(canonical_order(prs), cfg)))
}


/// The position of the first category that matches the pull request, or the
/// number of categories where none does.
fn first_matching_category(pull_request: &PullRequestInfo, config: &ReleaseConfig) -> (r: usize)
    ensures
        r <= config.categories@.len(),
        forall|j: int| 0 <= j < r ==> !in_category(*pull_request, *config, j),
        r < config.categories@.len() ==> in_category(*pull_request, *config, r as int),
{
    let mut k: usize = 0;
    while k < config.categories.len()
        invariant
            k <= config.categories@.len(),
            forall|j: int| 0 <= j < k ==> !in_category(*pull_request, *config, j),
        decreases config.categories@.len() - k,
    {
        if has_matching_label(pull_request, &config.categories[k].labels) {
            return k;
        }
        k += 1;
    }
    k
}

proof fn lemma_views_append(a: Seq<String>, b: Seq<String>)
    ensures
        views(a + b) =~= views(a) + views(b),
{
}

/// Collects the lines of the pull requests at `order` that `pick` selects,
/// where `pick[i]` says whether the `i`-th of them is selected.
fn rendered_lines(
    pull_requests: &[PullRequestInfo],
    order: &Vec<usize>,
    pick: &Vec<bool>,
    template: &str,
    Ghost(sel): Ghost<spec_fn(PullRequestInfo) -> bool>,
    Ghost(lines_of): Ghost<spec_fn(Seq<PullRequestInfo>) -> Seq<Seq<char>>>,
) -> (r: Vec<String>)
    requires
        order@ == canonical_positions(pull_requests@),
        indices_below(order@, pull_requests@.len()),
        pick@.len() == order@.len(),
        forall|i: int| 0 <= i < order@.len() ==> pick@[i] == sel(canonical_order(pull_requests@)[i]),
        lines_of(Seq::empty()) == Seq::<Seq<char>>::empty(),
        forall|s: Seq<PullRequestInfo>| #![trigger lines_of(s)] s.len() > 0 ==> lines_of(s) == if sel(s.last()) {
            lines_of(s.drop_last()).push(render(s.last(), template@))
        } else {
            lines_of(s.drop_last())
        },
    ensures
        views(r@) == lines_of(canonical_order(pull_requests@)),
{
    let ghost ord = canonical_order(pull_requests@);
    let mut r: Vec<String> = Vec::new();
    let mut i: usize = 0;
    assert(ord.subrange(0, 0) =~= Seq::<PullRequestInfo>::empty());
    assert(views(r@) =~= Seq::<Seq<char>>::empty());
    while i < order.len()
        invariant
            i <= order@.len(),
            ord == canonical_order(pull_requests@),
            ord.len() == order@.len(),
            order@ == canonical_positions(pull_requests@),
            indices_below(order@, pull_requests@.len()),
            pick@.len() == order@.len(),
            forall|i: int| 0 <= i < order@.len() ==> pick@[i] == sel(ord[i]),
            forall|s: Seq<PullRequestInfo>| #![trigger lines_of(s)] s.len() > 0 ==> lines_of(s) == if sel(s.last()) {
                lines_of(s.drop_last()).push(render(s.last(), template@))
            } else {
                lines_of(s.drop_last())
            },
            views(r@) == lines_of(ord.subrange(0, i as int)),
        decreases order@.len() - i,
    {
        let ghost p = ord.subrange(0, i + 1);
        proof {
            assert(p.drop_last() =~= ord.subrange(0, i as int));
            assert(p.last() == pull_requests@[order@[i as int] as int]);
            assert(lines_of(p) == if sel(p.last()) {
                lines_of(p.drop_last()).push(render(p.last(), template@))
            } else {
                lines_of(p.drop_last())
            });
        }
        if pick[i] {
            let line = apply_change_template(template, &pull_requests[order[i]]);
            let ghost old_r = r@;
            r.push(line);
            assert(views(r@) =~= views(old_r).push(line@));
        }
        i += 1;
    }
    assert(ord.subrange(0, ord.len() as int) =~= ord);
    r
}

pub open spec fn heading_lines(heading: Option<String>) -> Seq<Seq<char>> {
    match heading {
        Some(h) => seq![h@],
        None => Seq::empty(),
    }
}

/// Appends a bucket: nothing where `lines` is empty, else `heading` (where
/// given), the lines, and a blank separator.
fn push_bucket(out: &mut Vec<String>, heading: Option<String>, lines: Vec<String>)
    ensures
        views(final(out)@) == views(old(out)@) + bucket(heading_lines(heading), views(lines@)),
{
    if lines.len() == 0 {
        assert(views(old(out)@) + Seq::<Seq<char>>::empty() =~= views(old(out)@));
        return;
    }
    let ghost start = out@;
    let mut lines = lines;
    let ghost lv = lines@;
    let ghost hv = heading_lines(heading);
    match heading {
        Some(h) => {
            out.push(h);
        },
        None => {},
    }
    let ghost mid = out@;
    out.append(&mut lines);
    out.push(String::new());
    proof {
        lemma_views_append(mid, lv);
        assert(views(mid) =~= views(start) + hv);
        assert(views(out@) =~= views(mid + lv).push(Seq::<char>::empty()));
        assert(views(out@) =~= views(start) + (hv + views(lv) + seq![Seq::<char>::empty()]));
    }
}

/// The changelog text: one bucket per category that claims a pull request,
/// the bucket of unclaimed ones, trailing blank lines trimmed.
pub fn build_changes(pull_requests: &[PullRequestInfo], config: &ReleaseConfig) -> (r: String)
    ensures
        r@ == changes_text(pull_requests@, *config),
{
    let ghost cfg = *config;
    let ghost ps = pull_requests@;
    let order = canonical_positions_exec(pull_requests);
    let ghost ord = canonical_order(ps);
    let mut excl: Vec<bool> = Vec::new();
    let mut first: Vec<usize> = Vec::new();
    let mut i: usize = 0;
    while i < order.len()
        invariant
            i <= order@.len(),
            ord == canonical_order(ps),
            ps == pull_requests@,
            cfg == *config,
            ord.len() == order@.len(),
            order@ == canonical_positions(ps),
            indices_below(order@, ps.len()),
            excl@.len() == i,
            first@.len() == i,
            forall|m: int| 0 <= m < i ==> excl@[m] == excluded(#[trigger] ord[m], cfg),
            forall|m: int| 0 <= m < i ==> first@[m] <= cfg.categories@.len(),
            forall|m: int, j: int| 0 <= m < i && 0 <= j < first@[m] ==> !in_category(ord[m], cfg, j),
            forall|m: int| 0 <= m < i && first@[m] < cfg.categories@.len() ==> in_category(ord[m], cfg, first@[m] as int),
        decreases order@.len() - i,
    {
        let pr = &pull_requests[order[i]];
        assert(ord[i as int] == *pr);
        excl.push(is_excluded(pr, config));
        first.push(first_matching_category(pr, config));
        i += 1;
    }
    let mut lines: Vec<String> = Vec::new();
    let mut k: usize = 0;
    while k < config.categories.len()
        invariant
            k <= cfg.categories@.len(),
            ord == canonical_order(ps),
            ps == pull_requests@,
            cfg == *config,
            ord.len() == order@.len(),
            order@ == canonical_positions(ps),
            indices_below(order@, ps.len()),
            excl@.len() == order@.len(),
            first@.len() == order@.len(),
            forall|m: int| 0 <= m < order@.len() ==> excl@[m] == excluded(#[trigger] ord[m], cfg),
            forall|m: int| 0 <= m < order@.len() ==> first@[m] <= cfg.categories@.len(),
            forall|m: int, j: int| 0 <= m < order@.len() && 0 <= j < first@[m] ==> !in_category(ord[m], cfg, j),
            forall|m: int| 0 <= m < order@.len() && first@[m] < cfg.categories@.len() ==> in_category(ord[m], cfg, first@[m] as int),
            views(lines@) == category_buckets(ord, cfg, k as nat),
        decreases cfg.categories@.len() - k,
    {
        let mut pick: Vec<bool> = Vec::new();
        let mut m: usize = 0;
        while m < order.len()
            invariant
                m <= order@.len(),
                k < cfg.categories@.len(),
                excl@.len() == order@.len(),
                first@.len() == order@.len(),
                ord.len() == order@.len(),
                forall|m: int| 0 <= m < order@.len() ==> excl@[m] == excluded(#[trigger] ord[m], cfg),
                forall|m: int| 0 <= m < order@.len() ==> first@[m] <= cfg.categories@.len(),
                forall|m: int, j: int| 0 <= m < order@.len() && 0 <= j < first@[m] ==> !in_category(ord[m], cfg, j),
                forall|m: int| 0 <= m < order@.len() && first@[m] < cfg.categories@.len() ==> in_category(ord[m], cfg, first@[m] as int),
                pick@.len() == m,
                forall|q: int| 0 <= q < m ==> pick@[q] == claimed(ord[q], cfg, k as int),
            decreases order@.len() - m,
        {
            let b = !excl[m] && first[m] == k;
            proof {
                let pr = ord[m as int];
                if claimed(pr, cfg, k as int) {
                    if first@[m as int] < k {
                        assert(in_category(pr, cfg, first@[m as int] as int));
                    }
                    if first@[m as int] > k {
                        assert(!in_category(pr, cfg, k as int));
                    }
                }
            }
            pick.push(b);
            m += 1;
        }
        let ghost kk = k as int;
        let cl = rendered_lines(
            pull_requests,
            &order,
            &pick,
            config.change_template.as_str(),
            Ghost(|pr: PullRequestInfo| claimed(pr, cfg, kk)),
            Ghost(|s: Seq<PullRequestInfo>| category_lines(s, cfg, kk)),
        );
        let mut heading = String::new();
        push_text(&mut heading, "## ");
        push_text(&mut heading, config.categories[k].title.as_str());
        push_bucket(&mut lines, Some(heading), cl);
        k += 1;
    }
    let mut pick: Vec<bool> = Vec::new();
    let mut m: usize = 0;
    while m < order.len()
        invariant
            m <= order@.len(),
            excl@.len() == order@.len(),
            first@.len() == order@.len(),
            ord.len() == order@.len(),
            forall|m: int| 0 <= m < order@.len() ==> excl@[m] == excluded(#[trigger] ord[m], cfg),
            forall|m: int| 0 <= m < order@.len() ==> first@[m] <= cfg.categories@.len(),
            forall|m: int, j: int| 0 <= m < order@.len() && 0 <= j < first@[m] ==> !in_category(ord[m], cfg, j),
            forall|m: int| 0 <= m < order@.len() && first@[m] < cfg.categories@.len() ==> in_category(ord[m], cfg, first@[m] as int),
            pick@.len() == m,
            forall|q: int| 0 <= q < m ==> pick@[q] == unclaimed(ord[q], cfg),
            cfg == *config,
        decreases order@.len() - m,
    {
        let b = !excl[m] && first[m] == config.categories.len();
        proof {
            let pr = ord[m as int];
            if first@[m as int] < cfg.categories@.len() {
                assert(in_category(pr, cfg, first@[m as int] as int));
            }
        }
        pick.push(b);
        m += 1;
    }
    let others = rendered_lines(
        pull_requests,
        &order,
        &pick,
        config.change_template.as_str(),
        Ghost(|pr: PullRequestInfo| unclaimed(pr, cfg)),
        Ghost(|s: Seq<PullRequestInfo>| other_lines(s, cfg)),
    );
    let heading = if config.categories.len() > 0 {
        let mut h = String::new();
        push_text(&mut h, "## Other Changes");
        Some(h)
    } else {
        None
    };
    push_bucket(&mut lines, heading, others);
    let ghost all = views(lines@);
    assert(all == changelog_lines(ord, cfg));
    while lines.len() > 0 && lines[lines.len() - 1].as_str().unicode_len() == 0
        invariant
            without_trailing_blanks(views(lines@)) == without_trailing_blanks(all),
        decreases lines@.len(),
    {
        let ghost before = views(lines@);
        lines.pop();
        assert(views(lines@) =~= before.drop_last());
    }
    join_with_newlines(&lines)
}


/// The body under a configuration: the changelog, put into the wrapping
/// template where one is given; the marker alone where that is blank, else
/// the marker, a blank line and the body.
pub open spec fn configured_notes(
    marker: Seq<char>,
    prs: Seq<PullRequestInfo>,
    cfg: ReleaseConfig,
) -> Seq<char> {
    let changes = changes_text(prs, cfg);
    let body = match cfg.template {
        Some(t) => replace_all(t@, "$CHANGES"@, changes),
        None => changes,
    };
    if trimmed(body).len() == 0 {
        marker
    } else {
        marker + "\n\n"@ + body
    }
}

/// The release body for the marker, the pull requests and the configuration.
pub open spec fn release_notes(
    marker: Seq<char>,
    prs: Seq<PullRequestInfo>,
    cfg: Option<ReleaseConfig>,
) -> Seq<char> {
    match cfg {
        Some(c) => configured_notes(marker, prs, c),
        None => plain_notes(marker, prs),
    }
}

pub open spec fn config_view(config: Option<&ReleaseConfig>) -> Option<ReleaseConfig> {
    match config {
        Some(c) => Some(*c),
        None => None,
    }
}

/// The release body: the marker, then the changelog of the pull requests.
pub fn build_release_notes(
    marker: &str,
    pull_requests: &[PullRequestInfo],
    config: Option<&ReleaseConfig>,
) -> (r: String)
    ensures
        r@ == release_notes(marker@, pull_requests@, config_view(config)),
{
    match config {
        None => plain_release_notes(marker, pull_requests),
        Some(config) => {
            let changes = build_changes(pull_requests, config);
            let body = match &config.template {
                Some(template) => {
                    proof {
                        reveal_strlit("$CHANGES");
                    }
                    replace_text(template.as_str(), "$CHANGES", changes.as_str())
                },
                None => changes,
            };
            let mut r = String::new();
            push_text(&mut r, marker);
            if trim(body.as_str()).as_str().unicode_len() == 0 {
                return r;
            }
            push_text(&mut r, "\n\n");
            push_text(&mut r, body.as_str());
            r
        },
    }
}


proof fn lemma_first_occurrences(prs: Seq<PullRequestInfo>)
    requires
        prs.len() <= usize::MAX,
    ensures
        forall|i: int|
            0 <= i < prs.len() ==> (first_occurrences(prs).contains(i as usize) <==> !seen_before(
                prs,
                i,
            )),
        indices_below(first_occurrences(prs), prs.len()),
        first_occurrences(prs).no_duplicates(),
    decreases prs.len(),
{
    lemma_first_occurrences_below(prs);
    if prs.len() > 0 {
        let dl = prs.drop_last();
        let d = first_occurrences(dl);
        let n = (prs.len() - 1) as usize;
        lemma_first_occurrences(dl);
        assert forall|i: int| 0 <= i < prs.len() - 1 implies seen_before(dl, i) == seen_before(
            prs,
            i,
        ) by {
            if seen_before(prs, i) {
                let k = choose|k: int| 0 <= k < i && prs[k].number == prs[i].number;
                assert(dl[k].number == dl[i].number);
            }
            if seen_before(dl, i) {
                let k = choose|k: int| 0 <= k < i && dl[k].number == dl[i].number;
                assert(prs[k].number == prs[i].number);
            }
        }
        assert(!d.contains(n)) by {
            if d.contains(n) {
                let k = choose|k: int| 0 <= k < d.len() && d[k] == n;
                assert((d[k] as nat) < dl.len());
            }
        }
        if !seen_before(prs, prs.len() - 1) {
            assert forall|i: int| 0 <= i < prs.len() implies (d.push(n).contains(i as usize)
                <==> !seen_before(prs, i)) by {
                if i < prs.len() - 1 {
                    if d.push(n).contains(i as usize) {
                        let k = choose|k: int| 0 <= k < d.len() + 1 && d.push(n)[k] == i as usize;
                        if k < d.len() {
                            assert(d.contains(i as usize));
                        }
                    }
                    if d.contains(i as usize) {
                        let k = choose|k: int| 0 <= k < d.len() && d[k] == i as usize;
                        assert(d.push(n)[k] == i as usize);
                    }
                } else {
                    assert(d.push(n)[d.len() as int] == n);
                }
            }
            assert forall|a: int, b: int| 0 <= a < d.len() + 1 && 0 <= b < d.len() + 1 && a
                != b implies d.push(n)[a] != d.push(n)[b] by {
                if a == d.len() {
                    assert(d[b] != n);
                } else if b == d.len() {
                    assert(d[a] != n);
                }
            }
        } else {
            assert(!d.contains(n));
        }
    }
}

/// Each pull-request number is processed once, with the data of its first
/// occurrence in the list, and every number of the list is processed.
pub proof fn lemma_dedup_first_occurrence(prs: Seq<PullRequestInfo>)
    requires
        prs.len() <= usize::MAX,
    ensures
        ({
            let c = canonical_order(prs);
            &&& forall|i: int, j: int| 0 <= i < j < c.len() ==> c[i].number != c[j].number
            &&& forall|i: int| 0 <= i < prs.len() && !seen_before(prs, i) ==> c.contains(prs[i])
            &&& forall|k: int|
                0 <= k < c.len() ==> exists|i: int|
                    0 <= i < prs.len() && !seen_before(prs, i) && #[trigger] c[k] == prs[i]
        }),
{
    broadcast use vstd::seq_lib::group_to_multiset_ensures;

    let f = first_occurrences(prs);
    let p = canonical_positions(prs);
    let c = canonical_order(prs);
    lemma_first_occurrences(prs);
    crate::order::lemma_sorted_multiset(f, merge_keys(prs), false);
    crate::order::lemma_sorted_ordered(f, merge_keys(prs), false);
    f.lemma_multiset_has_no_duplicates();
    p.lemma_multiset_has_no_duplicates_conv();
    assert forall|k: int| 0 <= k < p.len() implies !seen_before(prs, #[trigger] p[k] as int) by {
        assert(p.to_multiset().count(p[k]) > 0);
        assert(f.contains(p[k]));
    }
    assert forall|i: int, j: int| 0 <= i < j < c.len() implies c[i].number != c[j].number by {
        let (a, b) = (p[i] as int, p[j] as int);
        assert(a != b);
        assert(!seen_before(prs, a) && !seen_before(prs, b));
        if c[i].number == c[j].number {
            if a < b {
                assert(prs[a].number == prs[b].number);
            } else {
                assert(prs[b].number == prs[a].number);
            }
        }
    }
    assert forall|i: int| 0 <= i < prs.len() && !seen_before(prs, i) implies c.contains(prs[i]) by {
        assert(f.contains(i as usize));
        assert(p.to_multiset().count(i as usize) > 0);
        let k = choose|k: int| 0 <= k < p.len() && p[k] == i as usize;
        assert(c[k] == prs[i]);
    }
    assert forall|k: int| 0 <= k < c.len() implies exists|i: int|
        0 <= i < prs.len() && !seen_before(prs, i) && #[trigger] c[k] == prs[i] by {
        assert(!seen_before(prs, p[k] as int));
        assert(c[k] == prs[p[k] as int]);
    }
}

/// The pull requests are processed in ascending merge time, an absent time
/// counting as the earliest.
pub proof fn lemma_merge_order(prs: Seq<PullRequestInfo>)
    ensures
        ({
            let c = canonical_order(prs);
            forall|i: int, j: int|
                0 <= i < j < c.len() ==> !crate::order::key_lt(
                    crate::order::key_view(c[j].merged_at),
                    crate::order::key_view(c[i].merged_at),
                )
        }),
{
    let f = first_occurrences(prs);
    let p = canonical_positions(prs);
    let c = canonical_order(prs);
    lemma_first_occurrences_below(prs);
    crate::order::lemma_sorted_ordered(f, merge_keys(prs), false);
    assert forall|i: int, j: int| 0 <= i < j < c.len() implies !crate::order::key_lt(
        crate::order::key_view(c[j].merged_at),
        crate::order::key_view(c[i].merged_at),
    ) by {
        assert(!crate::order::precedes(merge_keys(prs), false, p[j], p[i]));
    }
}

/// The body is a function of its inputs alone: equal inputs give equal
/// bodies, so a run repeated with nothing new composes the same text.
pub proof fn lemma_notes_deterministic(
    marker1: Seq<char>,
    prs1: Seq<PullRequestInfo>,
    cfg1: Option<ReleaseConfig>,
    marker2: Seq<char>,
    prs2: Seq<PullRequestInfo>,
    cfg2: Option<ReleaseConfig>,
)
    requires
        marker1 == marker2,
        prs1 == prs2,
        cfg1 == cfg2,
    ensures
        release_notes(marker1, prs1, cfg1) == release_notes(marker2, prs2, cfg2),
{
}

pub open spec fn not_excluded(cfg: ReleaseConfig) -> spec_fn(PullRequestInfo) -> bool {
    |p: PullRequestInfo| !excluded(p, cfg)
}

proof fn lemma_excluded_lines(ord: Seq<PullRequestInfo>, cfg: ReleaseConfig, k: int)
    ensures
        category_lines(ord, cfg, k) == category_lines(ord.filter(not_excluded(cfg)), cfg, k),
        other_lines(ord, cfg) == other_lines(ord.filter(not_excluded(cfg)), cfg),
    decreases ord.len(),
{
    reveal(Seq::filter);
    if ord.len() > 0 {
        lemma_excluded_lines(ord.drop_last(), cfg, k);
        let fd = ord.drop_last().filter(not_excluded(cfg));
        if !excluded(ord.last(), cfg) {
            assert(ord.filter(not_excluded(cfg)).drop_last() =~= fd);
        }
    }
}

proof fn lemma_excluded_buckets(ord: Seq<PullRequestInfo>, cfg: ReleaseConfig, n: nat)
    ensures
        category_buckets(ord, cfg, n) == category_buckets(ord.filter(not_excluded(cfg)), cfg, n),
    decreases n,
{
    if n > 0 {
        lemma_excluded_buckets(ord, cfg, (n - 1) as nat);
        lemma_excluded_lines(ord, cfg, n - 1);
    }
}

/// A pull request with an excluded label contributes nothing, whatever
/// category its other labels match: the changelog lines are those of the
/// pull requests without excluded labels.
pub proof fn lemma_exclusion_precedence(ord: Seq<PullRequestInfo>, cfg: ReleaseConfig)
    ensures
        changelog_lines(ord, cfg) == changelog_lines(ord.filter(not_excluded(cfg)), cfg),
{
    lemma_excluded_buckets(ord, cfg, cfg.categories@.len());
    lemma_excluded_lines(ord, cfg, 0);
}

} // verus!
