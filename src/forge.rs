//! Decisions taken around the forge's paged API: the pull-request search
//! query, and when a listing has reached its last page.
use vstd::prelude::*;
use crate::text::push_text;

verus! {

/// The search query for the pull requests merged into `branch` of
/// `owner/repo`, merged at or after `since` where given.
pub open spec fn search_query_of(
    owner: Seq<char>,
    repo: Seq<char>,
    branch: Seq<char>,
    since: Option<Seq<char>>,
) -> Seq<char> {
    let base = "repo:"@ + owner + "/"@ + repo + " is:pr is:merged base:"@ + branch;
    match since {
        Some(s) => base + " merged:>="@ + s,
        None => base,
    }
}

/// The search query for the merged pull requests of a branch.
pub fn merged_pull_request_query(owner: &str, repo: &str, branch: &str, since: Option<&str>) -> (r:
    String)
    ensures
        r@ == search_query_of(
            owner@,
            repo@,
            branch@,
            match since {
                Some(s) => Some(s@),
                None => None,
            },
        ),
{
    let mut q = String::new();
    push_text(&mut q, "repo:");
    push_text(&mut q, owner);
    push_text(&mut q, "/");
    push_text(&mut q, repo);
    push_text(&mut q, " is:pr is:merged base:");
    push_text(&mut q, branch);
    if let Some(s) = since {
        push_text(&mut q, " merged:>=");
        push_text(&mut q, s);
    }
    q
}

/// Whether a page that held `count` items was the last one: it held fewer
/// than a full page.
pub fn is_last_page(count: usize, per_page: u32) -> (r: bool)
    ensures
        r == (count < per_page as usize),
{
    count < per_page as usize
}

} // verus!
