use boilerstrip::learn::bfs::collect_breadth_first_snippet_candidates;
use boilerstrip::learn::pipeline::{learn_finish, learn_plan, resolve_limits};
use boilerstrip::learn::types::{LearnError, Removals, Stability};

fn default_score(st: &Stability) -> Option<u64> {
    let mut ratio_sum = 0.0_f64;
    let mut min_ratio = 1.0_f64;
    for p in &st.pages {
        let r = p.stable as f64 / p.total as f64;
        ratio_sum += r;
        min_ratio = min_ratio.min(r);
    }
    let average = ratio_sum / st.pages.len() as f64;
    if average < 0.6 || min_ratio < 0.35 {
        return None;
    }
    Some(st.pages.len() as u64 * 1_000 + st.shared_fingerprints as u64 * 100 + (average * 100.0) as u64)
}

fn learn(pages: &[String], patterns: Option<Vec<String>>) -> Result<Removals, LearnError> {
    let (max_matches, limits) = resolve_limits(None, None, None);
    let plan = learn_plan(&pages.to_vec(), &patterns, &limits)?;
    let mut scored = Vec::new();
    for (sel, stats) in plan.selectors.iter().zip(plan.selector_stats.iter()) {
        if let Some(st) = stats.stability(plan.min_shared_pages, max_matches) {
            if let Some(score) = default_score(&st) {
                scored.push((sel.clone(), score));
            }
        }
    }
    Ok(learn_finish(&plan, &scored))
}

fn pages(v: &[&str]) -> Vec<String> {
    v.iter().map(|x| x.to_string()).collect()
}

#[test]
fn learn_requires_at_least_two_pages() {
    let LearnError::TooFewPages(n) = learn(&[], None).unwrap_err();
    assert_eq!(n, 0);
    let LearnError::TooFewPages(n) = learn(&pages(&["<html></html>"]), None).unwrap_err();
    assert_eq!(n, 1);
}

#[test]
fn learn_detects_shared_nav_selector() {
    let p = pages(&[
        "<html><body><nav class=\"site-nav\">Menu</nav><main>Page one</main></body></html>",
        "<html><body><nav class=\"site-nav\">Menu</nav><main>Page two</main></body></html>",
    ]);
    let removals = learn(&p, None).unwrap();
    assert!(removals.css_selectors_to_remove.iter().any(|s| s == ".site-nav"));
}

#[test]
fn learn_accepts_custom_boilerplate_patterns() {
    let p = pages(&[
        "<html><body><p class=\"ad-banner\">Buy now for great deals!</p><main>Content one</main></body></html>",
        "<html><body><p class=\"ad-banner\">Buy now for great deals!</p><main>Content two</main></body></html>",
    ]);
    let removals = learn(&p, Some(vec!["buy now".to_string()])).unwrap();
    assert!(removals.css_selectors_to_remove.iter().any(|s| s == ".ad-banner"));
}

#[test]
fn learn_with_empty_boilerplate_patterns_yields_no_snippets() {
    let p = pages(&[
        "<html><body><footer>Footer text</footer><main>Content</main></body></html>",
        "<html><body><footer>Footer text</footer><main>Content</main></body></html>",
    ]);
    let removals = learn(&p, Some(vec![])).unwrap();
    assert!(removals.html_to_remove.is_empty());
}

#[test]
fn learn_skips_script_and_style_elements() {
    let p = pages(&[
        "<html><head><script>var x=1;</script><style>.a{}</style></head><body><nav class=\"shared-nav\">Menu</nav></body></html>",
        "<html><head><script>var x=2;</script><style>.b{}</style></head><body><nav class=\"shared-nav\">Menu</nav></body></html>",
    ]);
    let removals = learn(&p, None).unwrap();
    assert!(removals.css_selectors_to_remove.iter().any(|s| s == ".shared-nav"));
}

#[test]
fn learn_skips_elements_with_empty_fingerprint() {
    let p = pages(&[
        "<html><body><p>...</p><nav class=\"shared-nav\">Menu</nav></body></html>",
        "<html><body><p>---</p><nav class=\"shared-nav\">Menu</nav></body></html>",
    ]);
    let removals = learn(&p, None).unwrap();
    assert!(removals.css_selectors_to_remove.iter().any(|s| s == ".shared-nav"));
}

#[test]
fn learn_handles_selectors_with_no_score() {
    let p = pages(&[
        "<html><body><div class=\"only-page-one\">Content unique to page one</div></body></html>",
        "<html><body><div>Content unique to page two</div></body></html>",
    ]);
    let removals = learn(&p, None).unwrap();
    assert!(!removals.css_selectors_to_remove.contains(&".only-page-one".to_string()));
}

#[test]
fn learn_too_few_pages_returns_error() {
    let err = learn(&pages(&["<html></html>"]), None).unwrap_err();
    assert!(err.message().contains("1"));
}

#[test]
fn learn_is_deterministic_across_runs() {
    let p = pages(&[
        "<html><body><nav class=\"site-nav\">Menu</nav><main>Page one content</main></body></html>",
        "<html><body><nav class=\"site-nav\">Menu</nav><main>Page two content</main></body></html>",
        "<html><body><nav class=\"site-nav\">Menu</nav><main>Page three content</main></body></html>",
    ]);
    let r1 = learn(&p, None).unwrap();
    let r2 = learn(&p, None).unwrap();
    assert_eq!(r1.css_selectors_to_remove, r2.css_selectors_to_remove, "css selectors must be deterministic");
    assert_eq!(r1.html_to_remove, r2.html_to_remove, "html snippets must be deterministic");
}

#[test]
fn learn_with_wholly_different_pages_returns_no_selectors() {
    let p = pages(&[
        "<html><body><div class=\"unique-a\">Content unique to page one</div></body></html>",
        "<html><body><div class=\"unique-b\">Content unique to page two</div></body></html>",
        "<html><body><div class=\"unique-c\">Content unique to page three</div></body></html>",
    ]);
    let removals = learn(&p, None).unwrap();
    assert!(removals.css_selectors_to_remove.is_empty(), "no shared selectors expected");
}

#[test]
fn learn_two_pages_requires_exact_match() {
    let p = pages(&[
        "<html><body><nav class=\"site-nav\">Sign in to continue</nav><main>Content A</main></body></html>",
        "<html><body><nav class=\"site-nav\">Sign in to proceed</nav><main>Content B</main></body></html>",
    ]);
    let removals = learn(&p, None).unwrap();
    let _ = removals;
}

#[test]
fn learn_finds_shared_boilerplate_snippet() {
    let footer = "<footer><p>Privacy policy and terms of use apply to all visitors</p></footer>";
    let p = vec![
        format!("<html><body><main>First article body</main>{footer}</body></html>"),
        format!("<html><body><main>Second article body</main>{footer}</body></html>"),
    ];
    let removals = learn(&p, None).unwrap();
    assert!(removals.html_to_remove.iter().any(|s| s.contains("Privacy policy")), "{:?}", removals);
}

#[test]
fn bfs_skips_script_and_style_elements() {
    let (_, limits) = resolve_limits(None, None, None);
    let html = pages(&[
        "<html><body><script>bad</script><div>Privacy footer boilerplate text long enough</div></body></html>",
        "<html><body><style>bad</style><div>Privacy footer boilerplate text long enough</div></body></html>",
    ]);
    let candidates = collect_breadth_first_snippet_candidates(&html, 2, &vec!["privacy".to_string()], &limits);
    assert!(!candidates.is_empty());
}

#[test]
fn bfs_returns_empty_for_unshared_child_paths() {
    let (_, limits) = resolve_limits(None, None, None);
    let sparse = pages(&[
        "<html><body><main><p>Only one child path is shared</p></main></body></html>",
        "<html><body></body></html>",
    ]);
    assert!(collect_breadth_first_snippet_candidates(&sparse, 2, &vec!["privacy".to_string()], &limits).is_empty());
    assert!(collect_breadth_first_snippet_candidates(&sparse, 3, &vec!["privacy".to_string()], &limits).is_empty());
}

#[test]
fn bfs_returns_empty_when_content_differs_across_pages() {
    let (_, limits) = resolve_limits(None, None, None);
    let unshared = pages(&[
        "<html><body><main><p>Only page one has this</p></main></body></html>",
        "<html><body><main></main></body></html>",
    ]);
    assert!(collect_breadth_first_snippet_candidates(&unshared, 2, &vec!["privacy".to_string()], &limits).is_empty());
}

#[test]
fn bfs_finds_candidate_when_shared_on_2_of_3_pages() {
    let (_, limits) = resolve_limits(None, None, None);
    let partial_child = pages(&[
        "<html><body><main><p>Privacy footer boilerplate text long enough</p></main></body></html>",
        "<html><body><main><p>Privacy footer boilerplate text long enough</p></main></body></html>",
        "<html><body></body></html>",
    ]);
    assert!(!collect_breadth_first_snippet_candidates(&partial_child, 2, &vec!["privacy".to_string()], &limits).is_empty());
}

#[test]
fn bfs_returns_empty_when_no_pattern_match() {
    let (_, limits) = resolve_limits(None, None, None);
    let non_boilerplate = pages(&[
        "<html><body><div class=\"shared\">Shared non matching content that is long enough</div></body></html>",
        "<html><body><div class=\"shared\">Different non matching content that is long enough</div></body></html>",
    ]);
    assert!(collect_breadth_first_snippet_candidates(&non_boilerplate, 2, &vec!["privacy".to_string()], &limits).is_empty());
}

#[test]
fn bfs_returns_empty_when_shared_selector_but_no_fingerprint_match() {
    let (_, limits) = resolve_limits(None, None, None);
    let selector_only = pages(&[
        "<html><body><aside role=\"contentinfo\">First unique footer text that is long enough</aside></body></html>",
        "<html><body><aside role=\"contentinfo\">Second unique footer text that is long enough</aside></body></html>",
    ]);
    assert!(collect_breadth_first_snippet_candidates(&selector_only, 2, &vec!["privacy".to_string()], &limits).is_empty());
}
