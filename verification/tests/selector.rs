use boilerstrip::convert::selector::{remove_by_css_selectors, remove_elements, select_content_root};
use boilerstrip::convert::strip::{string_from_utf8_lossy, strip_elements};
use boilerstrip::dom::load_model;
use boilerstrip::html::{parse_document, parse_fragment, root_inner_html, NodeKind, ParsedHtml};

fn name_of(doc: &ParsedHtml, k: usize) -> String {
    let m = load_model(doc);
    match &m.kinds[k] {
        NodeKind::Element { name, .. } => name.clone(),
        _ => String::new(),
    }
}

fn s(v: &[&str]) -> Vec<String> {
    v.iter().map(|x| x.to_string()).collect()
}

#[test]
fn remove_elements_strips_script_tags() {
    let html = r#"<p>Keep</p><script>var x=1;</script><p>Also keep</p>"#;
    let result = remove_elements(html, &["script"]);
    assert!(!result.contains("<script>"));
    assert!(result.contains("Keep"));
}

#[test]
fn remove_elements_strips_style_tags() {
    let html = r#"<p>Keep</p><style>.a{color:red}</style>"#;
    let result = remove_elements(html, &["style"]);
    assert!(!result.contains("<style>"));
    assert!(result.contains("Keep"));
}

#[test]
fn remove_elements_ignores_unknown_tag() {
    let html = "<p>Keep</p>";
    let result = remove_elements(html, &["unknown"]);
    assert_eq!(result, html);
}

#[test]
fn remove_by_css_selectors_returns_unchanged_when_none() {
    let html = "<p>Keep</p>";
    assert_eq!(remove_by_css_selectors(html, None), html);
}

#[test]
fn remove_by_css_selectors_returns_unchanged_when_empty() {
    let html = "<p>Keep</p>";
    assert_eq!(remove_by_css_selectors(html, Some(&vec![])), html);
}

#[test]
fn remove_by_css_selectors_removes_matching_elements() {
    let html = "<nav>Menu</nav><main>Content</main>";
    let result = remove_by_css_selectors(html, Some(&s(&["nav"])));
    assert!(!result.contains("<nav>"));
    assert!(result.contains("Content"));
}

#[test]
fn remove_by_css_selectors_skips_invalid_selector() {
    let html = "<p>Keep</p>";
    let result = remove_by_css_selectors(html, Some(&s(&["["])));
    assert_eq!(result, html);
}

#[test]
fn remove_by_css_selectors_skips_complex_invalid_selectors() {
    let html = "<div class=\"keep\">Keep</div><div class=\"remove\">Remove</div>";
    let selectors = s(&[":unsupported-pseudo", ".remove", "::before", "div:invalid-pseudo(1)"]);
    let result = remove_by_css_selectors(html, Some(&selectors));
    assert!(result.contains("Keep"));
    assert!(!result.contains("Remove"));
}

#[test]
fn select_content_root_falls_back_to_first_fragment_child() {
    let document = parse_fragment("<section>Only child</section>");
    let element = select_content_root(&document, Some(&s(&["["]))).unwrap();
    assert_eq!(name_of(&document, element), "section");
}

#[test]
fn select_content_root_uses_matching_custom_selector() {
    let document = parse_document("<html><body><main><article>Chosen</article></main></body></html>");
    let element = select_content_root(&document, Some(&s(&["article"]))).unwrap();
    assert_eq!(name_of(&document, element), "article");
}

#[test]
fn select_content_root_uses_single_semantic_element() {
    let document = parse_document("<html><body><main>Chosen</main></body></html>");
    let element = select_content_root(&document, None).unwrap();
    assert_eq!(name_of(&document, element), "main");
}

#[test]
fn remove_by_css_selectors_removes_multiple_matching_elements() {
    let html = "<div class=\"ad\">Ad A</div><p>Keep</p><div class=\"ad\">Ad B</div>";
    let result = remove_by_css_selectors(html, Some(&s(&[".ad"])));
    assert!(!result.contains("Ad A"));
    assert!(!result.contains("Ad B"));
    assert!(result.contains("Keep"));
}

#[test]
fn select_content_root_skips_ambiguous_semantic_elements() {
    let document = parse_document("<html><body><article>One</article><article>Two</article></body></html>");
    let element = select_content_root(&document, None).unwrap();
    assert_eq!(name_of(&document, element), "body");
}

#[test]
fn remove_elements_handles_script_with_close_tag_in_string() {
    let html = r#"<p>Keep</p><script>var s = "</script";</script><p>Also</p>"#;
    let result = remove_elements(html, &["script"]);
    assert!(!result.contains("<script>"));
    assert!(result.contains("Keep"));
    assert!(result.contains("Also"));
}

#[test]
fn remove_by_css_selectors_removes_duplicate_identical_elements() {
    let html = "<nav class=\"site-nav\">Menu</nav><p>Keep</p><nav class=\"site-nav\">Menu</nav>";
    let result = remove_by_css_selectors(html, Some(&s(&[".site-nav"])));
    assert!(!result.contains("Menu"));
    assert!(result.contains("Keep"));
}

#[test]
fn strip_removes_script_and_style() {
    let html = "<html><head><script>evil()</script></head><body><p>Keep</p></body></html>";
    let out = String::from_utf8(strip_elements(html, &vec![])).unwrap();
    assert!(!out.contains("evil") && out.contains("Keep"));
}

#[test]
fn strip_removes_matching_selector() {
    let html = "<html><body><nav class=\"nav\">Menu</nav><p>Content</p></body></html>";
    let out = String::from_utf8(strip_elements(html, &s(&[".nav"]))).unwrap();
    assert!(!out.contains("Menu") && out.contains("Content"));
}

#[test]
fn strip_skips_invalid_selector() {
    let out = String::from_utf8(strip_elements("<p>Keep</p>", &s(&[">>"]))).unwrap();
    assert!(out.contains("Keep"));
}

#[test]
fn strip_keeps_everything_else_verbatim() {
    let html = "<p class=\"a\">x</p><style>p{}</style><div>y</div>";
    let out = string_from_utf8_lossy(&strip_elements(html, &vec![]));
    assert_eq!(out, "<p class=\"a\">x</p><div>y</div>");
}

#[test]
fn strips_html_wrappers_from_fragment() {
    let fragment = parse_fragment("<p>hello</p>");
    let result = root_inner_html(&fragment);
    assert!(result.contains("<p>hello</p>"));
    assert!(!result.starts_with("<html>"));
}

#[test]
fn handles_document_without_html_prefix() {
    let fragment = parse_fragment("");
    let result = root_inner_html(&fragment);
    assert!(!result.starts_with("<html>"));
}

#[test]
fn remove_elements_serializes_what_is_left() {
    assert_eq!(remove_elements("<p>a</p><b>b</b><p>c</p>", &["b"]), "<p>a</p><p>c</p>");
}
