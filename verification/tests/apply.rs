use boilerstrip::learn::apply::{
    apply_html_snippet_removals, apply_removals, apply_removals_compiled, sort_snippets,
    CompiledRemovals,
};
use boilerstrip::learn::types::Removals;

fn s(v: &[&str]) -> Vec<String> {
    v.iter().map(|x| x.to_string()).collect()
}

fn empty_removals() -> Removals {
    Removals { css_selectors_to_remove: vec![], html_to_remove: vec![] }
}

#[test]
fn invalid_snippet_regex_is_skipped() {
    let result = apply_html_snippet_removals("<p>Keep</p>", &s(&["("]));
    assert_eq!(result, "<p>Keep</p>");
}

#[test]
fn apply_removals_with_empty_removals_returns_trimmed_html() {
    let removals = empty_removals();
    let result = apply_removals("  <p>hello</p>  ", &removals);
    assert_eq!(result, "<p>hello</p>");
}

#[test]
fn apply_removals_strips_matching_css_selector() {
    let removals = Removals { css_selectors_to_remove: s(&["nav"]), html_to_remove: vec![] };
    let html = "<nav>Menu</nav><main>Content</main>";
    let result = apply_removals(html, &removals);
    assert!(!result.contains("<nav>"));
    assert!(result.contains("Content"));
}

#[test]
fn apply_removals_strips_html_snippet_flexibly() {
    let removals = Removals { css_selectors_to_remove: vec![], html_to_remove: s(&["<p>Footer text here</p>"]) };
    let html = "<div><p>Content</p></div><p>Footer  text  here</p>";
    let result = apply_removals(html, &removals);
    assert!(!result.contains("Footer"));
    assert!(result.contains("Content"));
}

#[test]
fn apply_removals_skips_blank_snippets() {
    let removals = Removals { css_selectors_to_remove: vec![], html_to_remove: s(&["   "]) };
    let html = "<p>Keep</p>";
    let result = apply_removals(html, &removals);
    assert_eq!(result, "<p>Keep</p>");
}

#[test]
fn apply_removals_skips_invalid_css_selector() {
    let removals = Removals { css_selectors_to_remove: s(&["["]), html_to_remove: vec![] };
    let result = apply_removals("<p>Keep</p>", &removals);
    assert_eq!(result, "<p>Keep</p>");
}

#[test]
fn apply_removals_removes_multiple_css_selectors() {
    let removals = Removals { css_selectors_to_remove: s(&["nav"]), html_to_remove: vec![] };
    let html = "<nav>Nav One</nav><main>Content</main><nav>Nav Two</nav>";
    let result = apply_removals(html, &removals);
    assert!(!result.contains("Nav One"));
    assert!(!result.contains("Nav Two"));
    assert!(result.contains("Content"));
}

#[test]
fn apply_removals_with_same_length_snippets_uses_lexical_sort() {
    let removals = Removals { css_selectors_to_remove: vec![], html_to_remove: s(&["<p>aaaa</p>", "<p>bbbb</p>"]) };
    let html = "<p>aaaa</p><p>bbbb</p><p>Keep</p>";
    let result = apply_removals(html, &removals);
    assert!(!result.contains("aaaa"));
    assert!(!result.contains("bbbb"));
    assert!(result.contains("Keep"));
}

#[test]
fn apply_html_snippet_removals_skips_snippet_not_in_html() {
    let removals = Removals { css_selectors_to_remove: vec![], html_to_remove: s(&["<p>This snippet is not in the html</p>"]) };
    let html = "<p>Different content entirely</p>";
    let result = apply_removals(html, &removals);
    assert_eq!(result, html);
}

#[test]
fn compiled_removals_applies_css_and_snippets() {
    let removals = Removals { css_selectors_to_remove: s(&["nav"]), html_to_remove: s(&["<p>Footer</p>"]) };
    let compiled = CompiledRemovals::new(&removals);
    let html = "<nav>Menu</nav><p>Footer</p><main>Content</main>";
    let result = apply_removals_compiled(html, &compiled);
    assert!(!result.contains("Menu"));
    assert!(!result.contains("Footer"));
    assert!(result.contains("Content"));
}

#[test]
fn compiled_removals_with_empty_removals_returns_trimmed() {
    let removals = empty_removals();
    let compiled = CompiledRemovals::new(&removals);
    let result = apply_removals_compiled("  <p>hello</p>  ", &compiled);
    assert_eq!(result, "<p>hello</p>");
}

#[test]
fn compiled_removals_skips_invalid_css_selector() {
    let removals = Removals { css_selectors_to_remove: s(&["["]), html_to_remove: vec![] };
    let compiled = CompiledRemovals::new(&removals);
    let result = apply_removals_compiled("<p>Keep</p>", &compiled);
    assert_eq!(result, "<p>Keep</p>");
}

#[test]
fn compiled_removals_sorts_equal_length_snippets_lexically() {
    let removals = Removals { css_selectors_to_remove: vec![], html_to_remove: s(&["<p>aaa</p>", "<p>bbb</p>"]) };
    let compiled = CompiledRemovals::new(&removals);
    let html = "<p>aaa</p><p>bbb</p><p>Keep</p>";
    let result = apply_removals_compiled(html, &compiled);
    assert!(!result.contains("aaa"));
    assert!(!result.contains("bbb"));
    assert!(result.contains("Keep"));
}

#[test]
fn compiled_removals_skips_snippet_not_in_html() {
    let removals = Removals { css_selectors_to_remove: vec![], html_to_remove: s(&["<p>Missing snippet</p>"]) };
    let compiled = CompiledRemovals::new(&removals);
    let html = "<p>Different content</p>";
    let result = apply_removals_compiled(html, &compiled);
    assert_eq!(result, html);
}

#[test]
fn snippets_sort_longest_first_then_lexically_keeping_repeats() {
    let sorted = sort_snippets(&s(&["bb", "a", "ccc", "ab", "bb"]));
    assert_eq!(sorted, s(&["ccc", "ab", "bb", "bb", "a"]));
}

#[test]
fn snippet_removal_ignores_case_and_whitespace_between_tags() {
    let result = apply_html_snippet_removals("<div>\n  <P>Cookie   Notice</P>\n</div><p>keep</p>", &s(&["<p>cookie notice</p>"]));
    assert!(!result.to_lowercase().contains("cookie"));
    assert!(result.contains("keep"));
}
