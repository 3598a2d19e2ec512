use boilerstrip::convert::filter::{
    apply_text_density_filter, compute_density_score, filter_links, filter_links_inplace,
    href_matches, is_scheme_prefix, normalize_href_scheme, should_remove_by_href,
    should_remove_by_text,
};
use boilerstrip::dom::load_model;
use boilerstrip::html::{outer_html, parse_document, root_inner_html, NodeKind};

fn name_of(doc: &boilerstrip::html::ParsedHtml, k: usize) -> String {
    let m = load_model(doc);
    match &m.kinds[k] {
        NodeKind::Element { name, .. } => name.clone(),
        _ => String::new(),
    }
}

fn s(v: &[&str]) -> Vec<String> {
    v.iter().map(|x| x.to_string()).collect()
}

#[test]
fn text_density_filter_selects_highest_scoring_element() {
    let doc = parse_document(
        "<html><body><nav><a href=\"/a\">Link</a></nav><article>Long article body with prose.</article></body></html>",
    );
    let selected = apply_text_density_filter(&doc).expect("article should be selected");
    assert!(outer_html(&doc, selected).contains("Long article body"));
}

#[test]
fn text_density_filter_keeps_first_element_when_scores_tie() {
    let doc = parse_document(
        "<html><body><main>Same length</main><article>Same length</article></body></html>",
    );
    let selected = apply_text_density_filter(&doc).expect("main should be selected");
    assert_eq!(name_of(&doc, selected), "main");
}

#[test]
fn text_density_filter_scores_links_and_replaces_lower_score() {
    let doc = parse_document(
        "<html><body><main><a href=\"/nav\">Navigation link</a></main><article>Dense article text wins.</article></body></html>",
    );
    let selected = apply_text_density_filter(&doc).expect("article should be selected");
    assert_eq!(name_of(&doc, selected), "article");
}

#[test]
fn text_density_filter_returns_none_for_empty_document() {
    let doc = parse_document("<html><body></body></html>");
    assert!(apply_text_density_filter(&doc).is_none());
}

#[test]
fn filter_links_removes_empty_and_anchor_links() {
    let html = "<p><a href=\"/page\">Keep me</a> <a href=\"#\">Skip</a> <a href=\"/x\"></a></p>";
    let result = filter_links(html, &vec![], &vec![]);
    assert!(result.contains("Keep me"));
    assert!(!result.contains("href=\"#\""));
}

#[test]
fn filter_links_removes_by_text_pattern() {
    let html = "<p><a href=\"/\">Log In</a> <a href=\"/y\">Read More</a> <a href=\"/z\">Share</a></p>";
    let patterns = s(&["log in", "share"]);
    let filtered = filter_links(html, &patterns, &vec![]);
    assert!(!filtered.contains("Log In"));
    assert!(!filtered.contains("Share"));
    assert!(filtered.contains("Read More"));
}

#[test]
fn filter_links_removes_by_text_pattern_lowercase() {
    let html = "<p><a href=\"/\">log in</a> <a href=\"/y\">read more</a> <a href=\"/z\">share</a></p>";
    let patterns = s(&["log in", "share"]);
    let filtered = filter_links(html, &patterns, &vec![]);
    assert!(!filtered.contains("log in"));
    assert!(!filtered.contains("share"));
    assert!(filtered.contains("read more"));
}

#[test]
fn filter_links_removes_by_text_pattern_non_ascii() {
    let html = "<p><a href=\"/\">Connexion</a> <a href=\"/y\">Lire la suite</a> <a href=\"/z\">Partager</a></p>";
    let patterns = s(&["connexion", "partager"]);
    let filtered = filter_links(html, &patterns, &vec![]);
    assert!(!filtered.contains("Connexion"));
    assert!(!filtered.contains("Partager"));
    assert!(filtered.contains("Lire la suite"));
}

#[test]
fn filter_links_removes_by_text_pattern_non_ascii_lowercase() {
    let html = "<p><a href=\"/\">connexion</a> <a href=\"/y\">lire la suite</a> <a href=\"/z\">partager</a></p>";
    let patterns = s(&["connexion", "partager"]);
    let filtered = filter_links(html, &patterns, &vec![]);
    assert!(!filtered.contains("connexion"));
    assert!(!filtered.contains("partager"));
    assert!(filtered.contains("lire la suite"));
}

#[test]
fn filter_links_removes_by_text_pattern_non_ascii_fallback() {
    let html = "<p><a href=\"/\">Log In\u{00A0}Now</a> <a href=\"/y\">Read More</a></p>";
    let patterns = s(&["log in\u{00A0}now"]);
    let filtered = filter_links(html, &patterns, &vec![]);
    assert!(!filtered.contains("Log In\u{00A0}Now"));
    assert!(filtered.contains("Read More"));
}

#[test]
fn filter_links_inplace_removes_empty_and_anchor_links() {
    let html = r##"<html><body><p><a href="/page">Keep me</a> <a href="#">Skip</a> <a href="/x"></a></p></body></html>"##;
    let mut document = parse_document(html);
    filter_links_inplace(&mut document, &vec![], &vec![]);
    let result = root_inner_html(&document);
    assert!(result.contains("Keep me"));
    assert!(!result.contains("href=\"#\""));
    assert!(!result.contains("Skip"));
    assert!(!result.contains("href=\"/x\""));
}

#[test]
fn filter_links_inplace_removes_by_href_prefix() {
    let html = r#"<html><body><p><a href="javascript:void(0)">Click</a> <a href="/safe">Safe</a></p></body></html>"#;
    let mut document = parse_document(html);
    filter_links_inplace(&mut document, &vec![], &s(&["javascript:"]));
    let result = root_inner_html(&document);
    assert!(!result.contains("javascript:"));
    assert!(!result.contains("Click"));
    assert!(result.contains("Safe"));
}

#[test]
fn filter_links_inplace_removes_button_without_href() {
    let html = r#"<html><body><p><button>Click</button></p></body></html>"#;
    let mut document = parse_document(html);
    filter_links_inplace(&mut document, &vec![], &vec![]);
    let result = root_inner_html(&document);
    assert!(!result.contains("<button>"));
    assert!(!result.contains("Click"));
}

#[test]
fn filter_links_inplace_preserves_image_only_link() {
    let html = r#"<html><body><p><a href="/logo"><img src="logo.png" alt="Logo"></a></p></body></html>"#;
    let mut document = parse_document(html);
    filter_links_inplace(&mut document, &vec![], &vec![]);
    let result = root_inner_html(&document);
    assert!(result.contains("href=\"/logo\""));
    assert!(result.contains("logo.png"), "image-only link should be preserved");
}

#[test]
fn filter_links_inplace_removes_by_text_pattern_case_insensitive() {
    let html = r#"<html><body><main><a href="/close">Close</a> <a href="/keep">Keep</a></main></body></html>"#;
    let mut document = parse_document(html);
    filter_links_inplace(&mut document, &s(&["close"]), &vec![]);
    let result = root_inner_html(&document);
    assert!(!result.contains("Close"));
    assert!(result.contains("Keep"));
}

#[test]
fn filter_links_removes_by_href_prefix() {
    let html = r#"<p><a href="javascript:void(0)">Click</a> <a href="/safe">Safe</a></p>"#;
    let result = filter_links(html, &vec![], &s(&["javascript:"]));
    assert!(!result.contains("javascript:"));
    assert!(result.contains("Safe"));
}

#[test]
fn filter_links_removes_button_without_href() {
    let html = "<p><button>Click</button></p>";
    let result = filter_links(html, &vec![], &vec![]);
    assert!(!result.contains("<button>"));
}

#[test]
fn filter_links_removes_href_with_mixed_case_and_whitespace() {
    let html = r#"<p><a href="  JaVaScRiPt:alert(1)">Click</a></p>"#;
    let result = filter_links(html, &vec![], &s(&["javascript:"]));
    assert!(!result.contains("JaVaScRiPt:"));
    assert!(!result.contains("Click"));
}

#[test]
fn filter_links_removes_href_with_ascii_control_characters() {
    let html = "<p><a href=\"\x01java\nscript:alert(1)\">Click</a></p>";
    let result = filter_links(html, &vec![], &s(&["javascript:"]));
    assert!(!result.contains("java"));
    assert!(!result.contains("Click"));
}

#[test]
fn filter_links_normalizes_mixed_case_scheme_pattern() {
    let html = r#"<p><a href="javascript:void(0)">Click</a></p>"#;
    let result = filter_links(html, &vec![], &s(&["JavaScript:"]));
    assert!(!result.contains("javascript:"));
    assert!(!result.contains("Click"));
}

#[test]
fn filter_links_keeps_non_scheme_href_prefix_case_sensitive() {
    let html = r#"<p><a href="/Admin">Keep</a> <a href="/admin">Remove</a></p>"#;
    let result = filter_links(html, &vec![], &s(&["/admin"]));
    assert!(result.contains("Keep"));
    assert!(!result.contains("Remove"));
}

#[test]
fn filter_links_preserves_image_only_link() {
    let html = r#"<p><a href="/logo"><img src="logo.png" alt="Logo"></a></p>"#;
    let result = filter_links(html, &vec![], &vec![]);
    assert!(result.contains("logo.png"), "image-only link should be preserved");
}

#[test]
fn filter_links_removes_by_text_pattern_ascii_mixed_case() {
    let html = r#"<p><a href="/close">ClOsE</a> <a href="/keep">Keep</a></p>"#;
    let result = filter_links(html, &s(&["close"]), &vec![]);
    assert!(!result.contains("ClOsE"));
    assert!(result.contains("Keep"));
}

#[test]
fn filter_links_removes_by_text_pattern_ascii_lower_case() {
    let html = r#"<p><a href="/close">close</a> <a href="/keep">keep</a></p>"#;
    let result = filter_links(html, &s(&["close"]), &vec![]);
    assert!(!result.contains(">close<"));
    assert!(result.contains(">keep<"));
}

#[test]
fn filter_links_removes_by_text_pattern_unicode() {
    let html = r#"<p><a href="/close">Cłose</a> <a href="/keep">Keep</a></p>"#;
    let result = filter_links(html, &s(&["cłose"]), &vec![]);
    assert!(!result.contains("Cłose"));
    assert!(result.contains("Keep"));
}

#[test]
fn filter_links_removes_by_text_pattern_unicode_lowercase() {
    let html = r#"<p><a href="/close">cłose</a> <a href="/keep">keep</a></p>"#;
    let result = filter_links(html, &s(&["cłose"]), &vec![]);
    assert!(!result.contains(">cłose<"));
    assert!(result.contains(">keep<"));
}

#[test]
fn filter_links_keeps_when_empty_pattern() {
    let html = r#"<p><a href="/close">close</a></p>"#;
    let result = filter_links(html, &vec![], &vec![]);
    assert!(result.contains(">close<"));
}

#[test]
fn test_normalize_href_scheme_bypasses() {
    assert_eq!(normalize_href_scheme("java\u{0085}script:"), "javascript:");
    assert_eq!(normalize_href_scheme("java\u{2002}script:"), "javascript:");
    assert_eq!(normalize_href_scheme("java\u{00A0}script:"), "javascript:");
    assert_eq!(normalize_href_scheme("javascript:"), "javascript:");
    assert_eq!(normalize_href_scheme("  \t java\nscript: "), "javascript:");
}

#[test]
fn filter_links_handles_empty_pattern_in_text() {
    let html = r#"<p><a href="/close">close</a></p>"#;
    let result = filter_links(html, &s(&[""]), &vec![]);
    assert!(!result.contains(">close<"));
    assert!(!result.contains("<a"));
}

#[test]
fn filter_links_handles_pattern_longer_than_text() {
    let html = r#"<p><a href="/close">a</a></p>"#;
    let result = filter_links(html, &s(&["ab"]), &vec![]);
    assert!(result.contains(">a<"));
}

#[test]
fn calculate_text_density_score_handles_non_a_elements_on_close() {
    let html = "<html><body><main>Test <b>bold</b> <a href=\"#\">link</a> <span>more</span></main></body></html>";
    let doc = parse_document(html);
    let selected = apply_text_density_filter(&doc).expect("main should be selected");
    assert_eq!(name_of(&doc, selected), "main");
}

#[test]
fn filter_links_inplace_keeps_when_empty_pattern() {
    let html = r#"<html><body><p><a href="/close">close</a></p></body></html>"#;
    let mut document = parse_document(html);
    filter_links_inplace(&mut document, &vec![], &vec![]);
    let result = root_inner_html(&document);
    assert!(result.contains(">close<"));
}

#[test]
fn compute_density_score_handles_normal_values() {
    let score = compute_density_score(100, 20, 1);
    assert_eq!(score, 60);
}

#[test]
fn compute_density_score_handles_extremely_large_text() {
    let score = compute_density_score(usize::MAX, 0, 0);
    assert_eq!(score, i32::MAX);
}

#[test]
fn compute_density_score_clamps_after_full_formula() {
    let score = compute_density_score(i32::MAX as usize + 1_000, 500, 0);
    assert_eq!(score, i32::MAX);
}

#[test]
fn compute_density_score_handles_extremely_large_links() {
    let score = compute_density_score(1000, 0, usize::MAX);
    assert_eq!(score, i32::MIN);
}

#[test]
fn compute_density_score_handles_extremely_large_link_text() {
    let score = compute_density_score(1000, usize::MAX, 0);
    assert_eq!(score, i32::MIN);
}

#[test]
fn compute_density_score_handles_everything_extremely_large() {
    let score = compute_density_score(usize::MAX, usize::MAX, usize::MAX);
    assert_eq!(score, i32::MIN);
}

#[test]
fn density_score_subtracts_link_text_and_penalty() {
    assert_eq!(compute_density_score(50, 10, 2), 0);
    assert_eq!(compute_density_score(0, 0, 1), -20);
}

#[test]
fn text_patterns_need_a_pattern_and_match_ignoring_case() {
    assert!(!should_remove_by_text("Close", &vec![], &vec![]));
    assert!(should_remove_by_text("Please CLOSE now", &s(&["close"]), &s(&["close"])));
    assert!(!should_remove_by_text("Open", &s(&["close"]), &s(&["close"])));
    assert!(should_remove_by_text("Fermer ÉTAT", &s(&["état"]), &s(&["état"])));
}

#[test]
fn href_patterns_match_prefixes_and_schemes() {
    assert!(href_matches("/admin/x", "/admin"));
    assert!(!href_matches("/Admin", "/admin"));
    assert!(href_matches(" JAVA script:x", "javascript:"));
    assert!(is_scheme_prefix("mailto:"));
    assert!(!is_scheme_prefix("1abc:"));
    assert!(!is_scheme_prefix("abc"));
    assert!(!should_remove_by_href(None, &s(&["x"])));
    assert!(!should_remove_by_href(Some("/x"), &vec![]));
    assert!(should_remove_by_href(Some("/x"), &s(&["/"])));
}
