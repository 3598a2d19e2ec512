//! Learning from a set of pages, in two steps around the scoring of the
//! selectors: `learn_plan` gathers what the pages share, `learn_finish`
//! turns the scored selectors and the snippet candidates into removals.

use vstd::prelude::*;
use crate::learn::bfs::{bfs_params, cands_view, collect_breadth_first_snippet_candidates, spec_snippet_candidates};
use crate::learn::collect::{collect_selector_stats, entry_selectors, pages_entries, selector_records};
use crate::learn::finish::{
    filter_snippet_candidates, kept_snippet_keys, minimum_shared_page_count, rank_selectors,
    scored_keys, snippet_key, spec_min_shared,
};
use crate::learn::ranking::{ranked_texts, ranks_before};
use crate::learn::selectors::{
    collect_promoted_selectors, dedup_seqs, lemma_dedup_distinct, merge_ranked_and_promoted_selectors,
    promoted_keys,
};
use crate::learn::snippets::SnippetLimits;
use crate::learn::types::{distinct_usizes, strings_view, LearnError, Removals, SelectorStats, SnippetCandidate};

verus! {

/// The built-in boilerplate text patterns.
pub open spec fn default_patterns() -> Seq<Seq<char>> {
    seq![
        "sign in"@, "contact us"@, "opens in a new window"@, "privacy"@, "terms"@, "cookie"@,
        "legal"@, "disclaimer"@, "all rights reserved"@, "fdic"@, "equal housing lender"@,
        "member fdic"@,
    ]
}

/// Return a list of patterns marking common boilerplate text.
pub fn default_boilerplate_patterns() -> (r: Vec<String>)
    ensures
        strings_view(r@) == default_patterns(),
{
    let mut v: Vec<String> = Vec::new();
    v.push("sign in".to_owned());
    v.push("contact us".to_owned());
    v.push("opens in a new window".to_owned());
    v.push("privacy".to_owned());
    v.push("terms".to_owned());
    v.push("cookie".to_owned());
    v.push("legal".to_owned());
    v.push("disclaimer".to_owned());
    v.push("all rights reserved".to_owned());
    v.push("fdic".to_owned());
    v.push("equal housing lender".to_owned());
    v.push("member fdic".to_owned());
    assert(strings_view(v@) =~= default_patterns());
    v
}

/// The patterns in use: the given ones, or the built-in ones when none
/// are given.
pub open spec fn patterns_in_use(patterns: Option<Vec<String>>) -> Seq<Seq<char>> {
    match patterns {
        None => default_patterns(),
        Some(p) => strings_view(p@),
    }
}

pub fn resolve_boilerplate_patterns(patterns: &Option<Vec<String>>) -> (r: Vec<String>)
    ensures
        strings_view(r@) == patterns_in_use(*patterns),
{
    match patterns {
        None => default_boilerplate_patterns(),
        Some(p) => {
            let mut out: Vec<String> = Vec::new();
            let mut i: usize = 0;
            while i < p.len()
                invariant
                    i <= p@.len(),
                    strings_view(out@) == strings_view(p@).take(i as int),
                decreases p@.len() - i,
            {
                let ghost before = out@;
                let c = p[i].clone();
                out.push(c);
                assert(out@ == before.push(c));
                assert(strings_view(out@) =~= strings_view(before).push(c@));
                assert(strings_view(p@).take(i + 1) =~= strings_view(p@).take(i as int).push(p@[i as int]@));
                i = i + 1;
            }
            assert(strings_view(p@).take(i as int) =~= strings_view(p@));
            out
        },
    }
}

/// Minimum text length (bytes) for a snippet to qualify as boilerplate.
pub const MIN_SNIPPET_TEXT_LENGTH: usize = 40;
/// Maximum text length (bytes) for a snippet to qualify as boilerplate.
pub const MAX_SNIPPET_TEXT_LENGTH: usize = 240;
/// Maximum matches of a selector on one page before it counts as too broad.
pub const MAX_SELECTOR_MATCHES_PER_PAGE: usize = 20;

/// The integer limits of learning, each given or defaulted: matches per
/// page, then the snippet text length bounds.
pub fn resolve_limits(
    max_selector_matches_per_page: Option<usize>,
    min_snippet_text_length: Option<usize>,
    max_snippet_text_length: Option<usize>,
) -> (r: (usize, SnippetLimits))
    ensures
        r.0 == match max_selector_matches_per_page { Some(v) => v, None => MAX_SELECTOR_MATCHES_PER_PAGE },
        r.1.min_snippet_text_length == match min_snippet_text_length { Some(v) => v, None => MIN_SNIPPET_TEXT_LENGTH },
        r.1.max_snippet_text_length == match max_snippet_text_length { Some(v) => v, None => MAX_SNIPPET_TEXT_LENGTH },
{
    let m = match max_selector_matches_per_page { Some(v) => v, None => MAX_SELECTOR_MATCHES_PER_PAGE };
    let lo = match min_snippet_text_length { Some(v) => v, None => MIN_SNIPPET_TEXT_LENGTH };
    let hi = match max_snippet_text_length { Some(v) => v, None => MAX_SNIPPET_TEXT_LENGTH };
    (m, SnippetLimits { min_snippet_text_length: lo, max_snippet_text_length: hi })
}

/// What the pages share, before the selectors are scored: the number of
/// pages a boilerplate element must appear on, the matches of every
/// selector candidate and the snippet candidates.
pub struct LearnPlan {
    pub min_shared_pages: usize,
    pub selectors: Vec<String>,
    pub selector_stats: Vec<SelectorStats>,
    pub snippet_candidates: Vec<(String, SnippetCandidate)>,
}

/// What `learn_plan` computes of `pages` with these patterns and limits.
pub open spec fn plan_of(
    p: LearnPlan,
    pages: Seq<Seq<char>>,
    patterns: Seq<Seq<char>>,
    limits: SnippetLimits,
) -> bool {
    let min = spec_min_shared(pages.len());
    let entries = pages_entries(pages, pages.len() as int);
    &&& p.min_shared_pages == min
    &&& p.selectors@.len() == p.selector_stats@.len()
    &&& strings_view(p.selectors@) == dedup_seqs(entry_selectors(entries))
    &&& forall|i: int| 0 <= i < p.selector_stats@.len() ==>
        (#[trigger] p.selector_stats@[i]).view() == selector_records(entries, p.selectors@[i]@)
    &&& cands_view(p.snippet_candidates@) == spec_snippet_candidates(
        pages, bfs_params(patterns, min as usize, limits))
}

/// First step of learning: fails with `TooFewPages` when fewer than two
/// pages are given; otherwise gathers the selector matches and snippet
/// candidates of the pages.
pub fn learn_plan(
    pages: &Vec<String>,
    boilerplate_patterns: &Option<Vec<String>>,
    limits: &SnippetLimits,
) -> (r: Result<LearnPlan, LearnError>)
    ensures
        r is Err <==> pages@.len() < 2,
        r matches Err(LearnError::TooFewPages(n)) ==> n == pages@.len(),
        r matches Ok(p) ==> plan_of(p, strings_view(pages@), patterns_in_use(*boilerplate_patterns), *limits),
        r matches Ok(p) ==> p.min_shared_pages >= 2,
{
    if pages.len() < 2 {
        return Err(LearnError::TooFewPages(pages.len()));
    }
    let min_shared_pages = minimum_shared_page_count(pages.len());
    let (selectors, selector_stats) = collect_selector_stats(pages);
    let patterns = resolve_boilerplate_patterns(boilerplate_patterns);
    let snippet_candidates = collect_breadth_first_snippet_candidates(pages, min_shared_pages, &patterns, limits);
    assert(strings_view(pages@).len() == pages@.len());
    Ok(LearnPlan { min_shared_pages, selectors, selector_stats, snippet_candidates })
}

/// The selectors to remove: the scored ones by rank, then those promoted
/// from snippet candidates, without repeats.
pub open spec fn selected_of(scored: Seq<(String, u64)>, cands: Seq<(String, SnippetCandidate)>, min: nat) -> Seq<Seq<char>> {
    dedup_seqs(ranked_texts(scored_keys(scored)) + ranked_texts(promoted_keys(cands, min)))
}

/// Second step of learning: ranks the scored selectors, adds the selectors
/// promoted from snippet candidates and keeps the snippets that no
/// selected selector covers.
pub fn learn_finish(plan: &LearnPlan, scored: &Vec<(String, u64)>) -> (r: Removals)
    ensures
        strings_view(r.css_selectors_to_remove@)
            == selected_of(scored@, plan.snippet_candidates@, plan.min_shared_pages as nat),
        strings_view(r.html_to_remove@) == ranked_texts(kept_snippet_keys(
            plan.snippet_candidates@, plan.min_shared_pages as nat, strings_view(r.css_selectors_to_remove@))),
        forall|i: int, j: int| 0 <= i < j < r.css_selectors_to_remove@.len() ==>
            (#[trigger] r.css_selectors_to_remove@[i])@ != (#[trigger] r.css_selectors_to_remove@[j])@,
        forall|i: int, j: int| 0 <= i < j < r.html_to_remove@.len() ==>
            ranks_before(snippet_key(#[trigger] r.html_to_remove@[i]@), snippet_key(#[trigger] r.html_to_remove@[j]@)),
{
    let ranked = rank_selectors(scored);
    let promoted = collect_promoted_selectors(&plan.snippet_candidates, plan.min_shared_pages);
    let css = merge_ranked_and_promoted_selectors(ranked, promoted);
    let html = filter_snippet_candidates(&plan.snippet_candidates, plan.min_shared_pages, &css);
    proof {
        let all = ranked_texts(scored_keys(scored@)) + ranked_texts(promoted_keys(plan.snippet_candidates@, plan.min_shared_pages as nat));
        lemma_dedup_distinct(all);
        assert forall|i: int, j: int| 0 <= i < j < css@.len() implies
            (#[trigger] css@[i])@ != (#[trigger] css@[j])@ by {
            assert(strings_view(css@)[i] == css@[i]@);
            assert(strings_view(css@)[j] == css@[j]@);
        }
    }
    Removals { css_selectors_to_remove: css, html_to_remove: html }
}

proof fn lemma_same_candidates(a: Seq<(String, SnippetCandidate)>, b: Seq<(String, SnippetCandidate)>, min: nat)
    requires
        cands_view(a) == cands_view(b),
    ensures
        promoted_keys(a, min) == promoted_keys(b, min),
        forall|sel: Seq<Seq<char>>| #[trigger] kept_snippet_keys(a, min, sel) == kept_snippet_keys(b, min, sel),
{
    assert(a.len() == cands_view(a).len() && b.len() == cands_view(b).len());
    assert forall|i: int| 0 <= i < a.len() implies
        (#[trigger] a[i]).1.pages_view() == b[i].1.pages_view()
        && a[i].1.selectors_view() == b[i].1.selectors_view()
        && a[i].1.snippet_view() == b[i].1.snippet_view() by {
        assert(cands_view(a)[i] == cands_view(b)[i]);
    }
    assert(promoted_keys(a, min) =~= promoted_keys(b, min)) by {
        assert forall|k: crate::learn::ranking::RankedView| promoted_keys(a, min).contains(k) implies promoted_keys(b, min).contains(k) by {
            let i = choose|i: int| 0 <= i < a.len()
                && distinct_usizes(#[trigger] a[i].1.pages_view()).len() >= min
                && crate::learn::types::spec_best(a[i].1.selectors_view(), min) == Some(k.2)
                && k == crate::learn::types::priority_key(k.2);
            assert(b[i].1.pages_view() == a[i].1.pages_view());
        }
        assert forall|k: crate::learn::ranking::RankedView| promoted_keys(b, min).contains(k) implies promoted_keys(a, min).contains(k) by {
            let i = choose|i: int| 0 <= i < b.len()
                && distinct_usizes(#[trigger] b[i].1.pages_view()).len() >= min
                && crate::learn::types::spec_best(b[i].1.selectors_view(), min) == Some(k.2)
                && k == crate::learn::types::priority_key(k.2);
            assert(a[i].1.pages_view() == b[i].1.pages_view());
        }
    }
    assert forall|sel: Seq<Seq<char>>| #[trigger] kept_snippet_keys(a, min, sel) == kept_snippet_keys(b, min, sel) by {
        assert forall|k: crate::learn::ranking::RankedView| kept_snippet_keys(a, min, sel).contains(k) implies kept_snippet_keys(b, min, sel).contains(k) by {
            let i = choose|i: int| 0 <= i < a.len() && crate::learn::finish::keeps_snippet((#[trigger] a[i]).1, min, sel)
                && k == snippet_key(a[i].1.snippet_view());
            assert(b[i].1.pages_view() == a[i].1.pages_view());
        }
        assert forall|k: crate::learn::ranking::RankedView| kept_snippet_keys(b, min, sel).contains(k) implies kept_snippet_keys(a, min, sel).contains(k) by {
            let i = choose|i: int| 0 <= i < b.len() && crate::learn::finish::keeps_snippet((#[trigger] b[i]).1, min, sel)
                && k == snippet_key(b[i].1.snippet_view());
            assert(a[i].1.pages_view() == b[i].1.pages_view());
        }
        assert(kept_snippet_keys(a, min, sel) =~= kept_snippet_keys(b, min, sel));
    }
}

/// Learning is deterministic: any two plans that `learn_plan` may return
/// for the same pages, patterns and limits agree on every view, and from
/// them, for the same scores, `learn_finish` selects the same selectors and
/// keeps the same snippets.
pub proof fn lemma_learn_deterministic(
    p1: LearnPlan,
    p2: LearnPlan,
    pages: Seq<Seq<char>>,
    patterns: Seq<Seq<char>>,
    limits: SnippetLimits,
    scored: Seq<(String, u64)>,
)
    requires
        plan_of(p1, pages, patterns, limits),
        plan_of(p2, pages, patterns, limits),
    ensures
        p1.min_shared_pages == p2.min_shared_pages,
        strings_view(p1.selectors@) == strings_view(p2.selectors@),
        p1.selector_stats@.len() == p2.selector_stats@.len(),
        forall|i: int| 0 <= i < p1.selector_stats@.len() ==>
            (#[trigger] p1.selector_stats@[i]).view() == p2.selector_stats@[i].view(),
        cands_view(p1.snippet_candidates@) == cands_view(p2.snippet_candidates@),
        selected_of(scored, p1.snippet_candidates@, p1.min_shared_pages as nat)
            == selected_of(scored, p2.snippet_candidates@, p2.min_shared_pages as nat),
        forall|sel: Seq<Seq<char>>|
            #[trigger] kept_snippet_keys(p1.snippet_candidates@, p1.min_shared_pages as nat, sel)
                == kept_snippet_keys(p2.snippet_candidates@, p2.min_shared_pages as nat, sel),
{
    assert(p1.selectors@.len() == strings_view(p1.selectors@).len());
    assert(p2.selectors@.len() == strings_view(p2.selectors@).len());
    assert forall|i: int| 0 <= i < p1.selector_stats@.len() implies
        (#[trigger] p1.selector_stats@[i]).view() == p2.selector_stats@[i].view() by {
        assert(strings_view(p1.selectors@)[i] == p1.selectors@[i]@);
        assert(strings_view(p2.selectors@)[i] == p2.selectors@[i]@);
    }
    lemma_same_candidates(p1.snippet_candidates@, p2.snippet_candidates@, p1.min_shared_pages as nat);
}

} // verus!
