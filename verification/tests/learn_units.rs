use boilerstrip::html::{parse_fragment, NodeKind, Attr};
use boilerstrip::dom::load_model;
use boilerstrip::learn::bfs::{elem_kids_exec, load_page, resolve_exec};
use boilerstrip::learn::fingerprint::{normalize_whitespace, normalized_text_fingerprint, MAX_FINGERPRINT_WORDS};
use boilerstrip::learn::finish::{minimum_shared_page_count, rank_selectors, snippet_contains_selected_selector};
use boilerstrip::learn::order::compare_snippets_for_removal;
use boilerstrip::learn::pipeline::{default_boilerplate_patterns, resolve_limits};
use boilerstrip::learn::selectors::{
    collect_promoted_selectors, css_escape_identifier, is_stable_selector_token,
    merge_ranked_and_promoted_selectors, selector_candidates, selector_priority,
};
use boilerstrip::learn::snippets::{
    is_boilerplate_text_candidate, shared_fingerprint_for_samples, shared_selectors_for_samples,
    PathNodeSample, SnippetLimits,
};
use boilerstrip::learn::types::{LearnError, SelectorStats, SnippetCandidate};
use std::cmp::Ordering;

fn s(v: &[&str]) -> Vec<String> {
    v.iter().map(|x| x.to_string()).collect()
}

fn limits() -> SnippetLimits {
    resolve_limits(None, None, None).1
}

fn first_div_attrs(html: &str) -> Vec<Attr> {
    let d = parse_fragment(html);
    let m = load_model(&d);
    for k in m.kinds {
        if let NodeKind::Element { name, attrs } = k {
            if name == "div" {
                return attrs;
            }
        }
    }
    panic!("no div");
}

fn sample(page: usize, fp: &str, sels: &[&str]) -> PathNodeSample {
    PathNodeSample {
        page_index: page,
        text: String::new(),
        fingerprint: fp.to_string(),
        snippet: String::new(),
        selectors: s(sels),
    }
}

#[test]
fn fingerprint_normalizes_digits_and_punctuation() {
    assert_eq!(normalized_text_fingerprint("Hello, World! 123"), "hello world ###");
}

#[test]
fn fingerprint_caps_at_max_words() {
    let long_text = "word ".repeat(100);
    let fp = normalized_text_fingerprint(&long_text);
    assert_eq!(fp.split_whitespace().count(), MAX_FINGERPRINT_WORDS);
}

#[test]
fn fingerprint_caps_at_max_words_without_trailing_space() {
    let words: Vec<_> = (0..MAX_FINGERPRINT_WORDS).map(|i| format!("word{i}")).collect();
    let input = words.join(" ");
    let fp = normalized_text_fingerprint(&input);
    assert_eq!(fp.split_whitespace().count(), MAX_FINGERPRINT_WORDS);
    assert_eq!(fp, input.replace(|c: char| c.is_ascii_digit(), "#"));
}

#[test]
fn fingerprint_caps_at_max_words_with_trailing_space() {
    let words: Vec<_> = (0..MAX_FINGERPRINT_WORDS).map(|i| format!("word{i}")).collect();
    let input = format!("{} ", words.join(" "));
    let fp = normalized_text_fingerprint(&input);
    assert_eq!(fp.split_whitespace().count(), MAX_FINGERPRINT_WORDS);
    assert_eq!(fp, words.join(" ").replace(|c: char| c.is_ascii_digit(), "#"));
}

#[test]
fn fingerprint_treats_unicode_whitespace_as_separator() {
    assert_eq!(normalized_text_fingerprint("Alpha\u{00a0}Beta\u{2003}Gamma"), "alpha beta gamma");
}

#[test]
fn fingerprint_returns_empty_for_only_punctuation() {
    assert_eq!(normalized_text_fingerprint(".,;:!?-()[]{}"), "");
}

#[test]
fn fingerprint_returns_empty_for_blank() {
    assert_eq!(normalized_text_fingerprint(""), "");
    assert_eq!(normalized_text_fingerprint("   "), "");
}

#[test]
fn normalize_whitespace_collapses_runs() {
    assert_eq!(normalize_whitespace("a  b\t\nc"), "a b c");
}

#[test]
fn validates_selector_token_rejection_paths() {
    assert!(!is_stable_selector_token("a"));
    assert!(!is_stable_selector_token("123"));
    assert!(!is_stable_selector_token("bad!"));
    assert!(!is_stable_selector_token("item-1234"));
    assert!(!is_stable_selector_token("hash-deadbeef"));
    assert!(!is_stable_selector_token(&"a".repeat(65)));
    assert!(is_stable_selector_token("site-nav"));
    assert!(is_stable_selector_token("año-principal"));
}

#[test]
fn collects_id_class_and_role_selector_candidates() {
    let selectors = selector_candidates(&first_div_attrs(r#"<div id="hero" class="card item-1234" role="banner"></div>"#));
    assert!(selectors.contains(&"#hero".to_string()));
    assert!(selectors.contains(&".card".to_string()));
    assert!(selectors.contains(&r#"[role="banner"]"#.to_string()));
    assert!(!selectors.contains(&".item-1234".to_string()));
    let selectors2 = selector_candidates(&first_div_attrs(r#"<div role="123"></div>"#));
    assert!(!selectors2.contains(&r#"[role="123"]"#.to_string()));
    let selectors3 = selector_candidates(&first_div_attrs(r#"<div id="x" class="my-class"></div>"#));
    assert!(!selectors3.contains(&"#x".to_string()));
    assert!(selectors3.contains(&".my-class".to_string()));
}

#[test]
fn ranks_and_merges_selectors_deterministically() {
    assert!(selector_priority("#hero") > selector_priority(".hero"));
    assert!(selector_priority(".hero") > selector_priority(r#"[role="main"]"#));
    assert_eq!(selector_priority("main"), 4);
    let mut c1 = SnippetCandidate::new();
    c1.record(0, "<div></div>".to_string(), &s(&[".b"]));
    c1.record(1, "<div></div>".to_string(), &s(&[".b"]));
    let mut c2 = SnippetCandidate::new();
    c2.record(0, "<div></div>".to_string(), &s(&["#a"]));
    c2.record(1, "<div></div>".to_string(), &s(&["#a"]));
    let mut c3 = SnippetCandidate::new();
    c3.record(0, "<div></div>".to_string(), &s(&[".a"]));
    c3.record(1, "<div></div>".to_string(), &s(&[".a"]));
    let candidates = vec![("fp1".to_string(), c1), ("fp2".to_string(), c2), ("fp3".to_string(), c3)];
    assert_eq!(collect_promoted_selectors(&candidates, 2), s(&["#a", ".a", ".b"]));
    assert_eq!(merge_ranked_and_promoted_selectors(s(&[".a", ".a"]), s(&[".a", ".b"])), s(&[".a", ".b"]));
}

#[test]
fn tailwind_class_names_are_accepted_with_escaping() {
    let selectors = selector_candidates(&first_div_attrs(r#"<div class="md:hidden hover:text-blue-500"></div>"#));
    assert!(selectors.iter().any(|s| s.contains("md")), "md:hidden should be included");
}

#[test]
fn css_escape_identifier_escapes_colon_and_slash() {
    assert_eq!(css_escape_identifier("md:hidden"), "md\\:hidden");
    assert_eq!(css_escape_identifier("w-1/2"), "w-1\\/2");
}

#[test]
fn css_escape_identifier_escapes_leading_digit() {
    let result = css_escape_identifier("4col");
    assert!(result.starts_with('\\'), "leading digit should be escaped");
}

#[test]
fn shared_selectors_require_all_samples() {
    assert!(shared_selectors_for_samples(&vec![]).is_empty());
    let samples = vec![sample(0, "", &[".shared", ".one"]), sample(1, "", &[".shared"])];
    assert_eq!(shared_selectors_for_samples(&samples), s(&[".shared"]));
}

#[test]
fn shared_fingerprint_returns_none_for_empty_samples() {
    assert!(shared_fingerprint_for_samples(&vec![], 2).is_none());
}

#[test]
fn shared_fingerprint_returns_matching_fingerprint() {
    let result = shared_fingerprint_for_samples(&vec![sample(0, "fp", &[]), sample(1, "fp", &[])], 2);
    assert_eq!(result, Some("fp".to_string()));
}

#[test]
fn boilerplate_text_candidate_rejects_too_short() {
    assert!(!is_boilerplate_text_candidate("short", &s(&["short"]), &limits()));
}

#[test]
fn boilerplate_text_candidate_rejects_too_long() {
    assert!(!is_boilerplate_text_candidate(&"x".repeat(241), &s(&["x"]), &limits()));
}

#[test]
fn boilerplate_text_candidate_matches_pattern_in_range() {
    assert!(is_boilerplate_text_candidate(
        "This privacy footer boilerplate text is long enough to qualify",
        &s(&["privacy"]),
        &limits(),
    ));
}

#[test]
fn snippet_contains_selected_selector_detects_match() {
    assert!(snippet_contains_selected_selector(r#"<div class="shared">text</div>"#, &s(&[".shared"])));
    assert!(!snippet_contains_selected_selector("<p>text</p>", &s(&[".x"])));
}

#[test]
fn snippet_candidate_records_and_selects_best_promotable_selector() {
    let mut candidate = SnippetCandidate::new();
    candidate.record(0, "<p>a</p>".to_string(), &s(&[".a"]));
    candidate.record(1, "<section>longer</section>".to_string(), &s(&["#hero", ".a", r#"[role="main"]"#]));
    candidate.record(2, "<section>longest text here</section>".to_string(), &s(&["#hero", r#"[role="main"]"#]));
    assert_eq!(candidate.snippet(), "<section>longest text here</section>");
    assert_eq!(candidate.best_promotable_selector(2), Some("#hero".to_string()));
    let mut other = SnippetCandidate::new();
    other.record(0, "<p></p>".to_string(), &s(&[".b", ".a"]));
    other.record(1, "<p></p>".to_string(), &s(&[".b", ".a"]));
    assert_eq!(other.best_promotable_selector(2), Some(".a".to_string()));
    let empty = SnippetCandidate::new();
    assert!(empty.best_promotable_selector(2).is_none());
}

#[test]
fn learn_error_display() {
    let err = LearnError::TooFewPages(1);
    assert!(err.message().contains("1"));
}

#[test]
fn learn_error_message_is_exact() {
    assert_eq!(LearnError::TooFewPages(0).message(), "learn requires at least 2 HTML pages, got 0");
}

#[test]
fn selector_stats_merge_combines_counts() {
    let mut a = SelectorStats::new();
    a.record(0, "fp1");
    a.record(0, "fp1");
    a.record(1, "fp2");
    let mut b = SelectorStats::new();
    b.record(0, "fp1");
    b.record(2, "fp3");
    a.merge(b);
    assert_eq!(a.total_matches(0), 3);
    assert_eq!(a.total_matches(1), 1);
    assert_eq!(a.total_matches(2), 1);
    assert_eq!(a.fingerprint_matches(0, "fp1"), 3);
}

#[test]
fn compare_snippets_sorts_longer_then_lexical() {
    let longer = "<p>longer</p>".to_string();
    let shorter = "<p>short</p>".to_string();
    let left = "<p>a</p>".to_string();
    let right = "<p>b</p>".to_string();
    assert_eq!(compare_snippets_for_removal(&longer, &shorter), Ordering::Less);
    assert_eq!(compare_snippets_for_removal(&shorter, &longer), Ordering::Greater);
    assert_eq!(compare_snippets_for_removal(&left, &right), Ordering::Less);
    assert_eq!(compare_snippets_for_removal(&left, &left), Ordering::Equal);
}

#[test]
fn minimum_shared_page_count_is_at_least_two() {
    assert_eq!(minimum_shared_page_count(2), 2);
    assert_eq!(minimum_shared_page_count(3), 2);
    assert_eq!(minimum_shared_page_count(6), 4);
    assert_eq!(minimum_shared_page_count(0), 2);
    assert_eq!(minimum_shared_page_count(7), 5);
}

#[test]
fn default_boilerplate_patterns_are_non_empty() {
    assert!(!default_boilerplate_patterns().is_empty());
    assert_eq!(default_boilerplate_patterns().len(), 12);
    assert_eq!(default_boilerplate_patterns()[0], "sign in");
}

#[test]
fn ranking_orders_by_score_then_priority_then_text() {
    let scored = vec![
        (".b".to_string(), 2100u64),
        ("#a".to_string(), 2100u64),
        (".a".to_string(), 2100u64),
        (".z".to_string(), 3000u64),
    ];
    assert_eq!(rank_selectors(&scored), s(&[".z", "#a", ".a", ".b"]));
}

#[test]
fn stats_stability_counts_stable_matches_per_page() {
    let mut st = SelectorStats::new();
    st.record(0, "same");
    st.record(0, "noise");
    st.record(1, "same");
    let stab = st.stability(2, 20).expect("shared fingerprint");
    assert_eq!(stab.shared_fingerprints, 1);
    assert_eq!(stab.pages.len(), 2);
    assert_eq!((stab.pages[0].page, stab.pages[0].total, stab.pages[0].stable), (0, 2, 1));
    assert_eq!((stab.pages[1].page, stab.pages[1].total, stab.pages[1].stable), (1, 1, 1));
    assert!(st.stability(3, 20).is_none());
    assert!(st.stability(2, 1).is_none());
}

#[test]
fn resolve_element_by_path_returns_root_for_empty_path() {
    let page = load_page("<html><body><p>hello</p></body></html>");
    let root = page.root.unwrap();
    let el = resolve_exec(&page.m, root, &vec![]).unwrap();
    assert!(matches!(&page.m.kinds[el], NodeKind::Element { name, .. } if name == "body"));
}

#[test]
fn resolve_element_by_path_follows_child_indices() {
    let page = load_page("<html><body><p>one</p><p>two</p></body></html>");
    let root = page.root.unwrap();
    let el = resolve_exec(&page.m, root, &vec![1]).unwrap();
    assert!(matches!(&page.m.kinds[el], NodeKind::Element { name, .. } if name == "p"));
    let text: String = boilerstrip::dom::element_text_exec(&page.m, el).into_iter().collect();
    assert_eq!(text, "two");
}

#[test]
fn resolve_element_by_path_returns_none_for_out_of_bounds() {
    let page = load_page("<html><body><p>only</p></body></html>");
    let root = page.root.unwrap();
    assert!(resolve_exec(&page.m, root, &vec![5]).is_none());
}

#[test]
fn element_children_skips_script_and_style() {
    let page = load_page("<html><body><script>js</script><p>keep</p></body></html>");
    let root = page.root.unwrap();
    let children = elem_kids_exec(&page.m, root);
    assert_eq!(children.len(), 1);
    assert!(matches!(&page.m.kinds[children[0]], NodeKind::Element { name, .. } if name == "p"));
}
