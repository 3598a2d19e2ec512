use boilerstrip::convert::convert;
use boilerstrip::convert::parser::LinkValue;
use boilerstrip::convert::types::ConvertOptions;
use boilerstrip::learn::types::Removals;

fn s(v: &[&str]) -> Vec<String> {
    v.iter().map(|x| x.to_string()).collect()
}

fn link_get<'a>(links: &'a [(String, LinkValue)], k: &str) -> Option<&'a LinkValue> {
    links.iter().find(|(key, _)| key == k).map(|(_, v)| v)
}

#[test]
fn convert_returns_title_and_content() {
    let html = "<html><head><title>My Page</title></head><body><h1>Hello</h1></body></html>";
    let result = convert(html, &ConvertOptions::default());
    assert_eq!(result.title, Some("My Page".to_string()));
    assert!(result.content.contains("Hello"));
}

#[test]
fn convert_strips_scripts() {
    let html = "<html><body><script>evil();</script><p>Content</p></body></html>";
    let result = convert(html, &ConvertOptions::default());
    assert!(!result.content.contains("evil"));
}

#[test]
fn convert_applies_learned_removals() {
    let html = "<html><body><nav class=\"site-nav\">Menu</nav><main><p>Content</p></main></body></html>";
    let options = ConvertOptions {
        removals: Some(Removals { css_selectors_to_remove: s(&[".site-nav"]), html_to_remove: vec![] }),
        ..Default::default()
    };
    let result = convert(html, &options);
    assert!(!result.content.contains("Menu"));
    assert!(result.content.contains("Content"));
}

#[test]
fn convert_uses_text_density_filter() {
    let html = "<html><body><nav><a href=\"/x\">Link</a></nav><article>Long prose article text that should win.</article></body></html>";
    let options = ConvertOptions { use_text_density_filter: true, ..Default::default() };
    let result = convert(html, &options);
    assert!(result.content.contains("prose"));
}

#[test]
fn convert_extracts_canonical_url_and_lang() {
    let html = r#"<html lang="en"><head><link rel="canonical" href="https://example.com"></head><body><p>hi</p></body></html>"#;
    let result = convert(html, &ConvertOptions::default());
    assert_eq!(result.canonical_url, Some("https://example.com".to_string()));
    assert_eq!(result.lang, Some("en".to_string()));
}

#[test]
fn convert_strips_via_css_selectors_option() {
    let html = "<html><body><nav class=\"nav\">Menu</nav><p>Content</p></body></html>";
    let options = ConvertOptions { css_selectors_to_remove: s(&[".nav"]), ..Default::default() };
    let result = convert(html, &options);
    assert!(!result.content.contains("Menu") && result.content.contains("Content"));
}

#[test]
fn convert_strips_html_snippet_from_removals() {
    let html = "<html><body><div><p>Footer text</p></div><main><p>Content</p></main></body></html>";
    let options = ConvertOptions {
        removals: Some(Removals { css_selectors_to_remove: vec![], html_to_remove: s(&["<p>Footer text</p>"]) }),
        ..Default::default()
    };
    let result = convert(html, &options);
    assert!(!result.content.contains("Footer text") && result.content.contains("Content"));
}

#[test]
fn convert_removes_links_by_href_prefix() {
    let html = "<html><body><main><a href=\"javascript:void(0)\">JS</a><a href=\"/safe\">Safe</a></main></body></html>";
    let options = ConvertOptions { link_hrefs_to_remove: s(&["javascript:"]), ..Default::default() };
    let result = convert(html, &options);
    assert!(!result.content.contains("JS") && result.content.contains("Safe"));
}

#[test]
fn convert_removes_links_by_text_content() {
    let html = "<html><body><main><a href=\"/close\">Close</a><a href=\"/keep\">Keep</a></main></body></html>";
    let options = ConvertOptions { link_text_content_to_remove: s(&["close"]), ..Default::default() };
    let result = convert(html, &options);
    assert!(!result.content.contains("Close") && result.content.contains("Keep"));
}

#[test]
fn convert_filters_link_rel_tokens() {
    let html = r#"<html><head><link rel="me" href="https://example.com/author"><link rel="canonical" href="https://example.com/page"></head><body><p>hi</p></body></html>"#;
    let options = ConvertOptions { link_rel_tokens_to_remove: s(&["me"]), ..Default::default() };
    let result = convert(html, &options);
    assert!(link_get(&result.link, "me").is_none(), "me link should be filtered out");
    assert!(link_get(&result.link, "canonical").is_some(), "canonical link should remain");
}

#[test]
fn convert_uses_content_selectors() {
    let html = "<html><body><nav>Nav</nav><article><h1>Article</h1></article></body></html>";
    let options = ConvertOptions { content_selectors: s(&["article"]), ..Default::default() };
    let result = convert(html, &options);
    assert!(result.content.contains("Article"), "article content should be selected");
    assert!(!result.content.contains("Nav"), "nav should be excluded");
}

#[test]
fn convert_text_density_filter_respects_removals() {
    let footer_text = "Terms of service. ".repeat(20);
    let html = format!("<html><body><footer class=\"site-footer\">{footer_text}</footer><article>Real content here</article></body></html>");
    let options = ConvertOptions {
        removals: Some(Removals { css_selectors_to_remove: s(&[".site-footer"]), html_to_remove: vec![] }),
        use_text_density_filter: true,
        ..Default::default()
    };
    let result = convert(&html, &options);
    assert!(!result.content.contains("Terms of service"));
    assert!(result.content.contains("Real content"));
}

#[test]
fn nested_tables_render_outer_table() {
    let html = r#"<html><body><table>
      <tr><td><table><tr><td>inner</td></tr></table></td><td>outer-cell</td></tr>
    </table></body></html>"#;
    let result = convert(html, &ConvertOptions::default());
    assert!(result.content.contains("outer-cell"), "outer table cell should appear in output");
}

#[test]
fn anchor_wrapping_image_preserves_linked_image() {
    let html = r#"<html><body><main><a href="https://example.com"><img src="logo.png" alt="Logo"></a></main></body></html>"#;
    let result = convert(html, &ConvertOptions::default());
    assert!(result.content.contains("logo.png") || result.content.contains("Logo"), "image inside anchor should be preserved");
}

#[test]
fn whitespace_text_between_block_elements_is_skipped() {
    let html = "<html><body><main><h1>Title</h1>\n    <p>Content</p></main></body></html>";
    let result = convert(html, &ConvertOptions::default());
    assert!(result.content.contains("Title"));
    assert!(result.content.contains("Content"));
}

#[test]
fn deep_dom_does_not_stack_overflow() {
    let depth = 1500usize;
    let mut html = String::from("<html><body><main>");
    for _ in 0..depth {
        html.push_str("<div>");
    }
    html.push_str("deep content");
    for _ in 0..depth {
        html.push_str("</div>");
    }
    html.push_str("</main></body></html>");
    let _result = convert(&html, &ConvertOptions::default());
}

#[test]
fn table_subelement_as_content_root_does_not_panic() {
    let html = "<html><body><table><thead><tr><th>H1</th><th>H2</th></tr></thead>\
                <tbody><tr><td>A</td><td>B</td></tr></tbody></table></body></html>";
    let options = ConvertOptions { content_selectors: s(&["thead"]), ..Default::default() };
    let _result = convert(html, &options);
}

#[test]
fn convert_handles_none_removals() {
    let html = "<html><body><p>Test</p></body></html>";
    let options = ConvertOptions { removals: None, ..Default::default() };
    let result = convert(html, &options);
    assert!(result.content.contains("Test"));
}

#[test]
fn convert_produces_exact_markdown_and_metadata() {
    let html = r#"<html lang=" fr "><head><title> T </title><meta name="description" content="d"></head><body><main><h1>Head</h1><p>Body <a href="/x">link</a></p></main></body></html>"#;
    let result = convert(html, &ConvertOptions::default());
    assert_eq!(result.content, "# Head\n\nBody [link](/x)");
    assert_eq!(result.title, Some("T".to_string()));
    assert_eq!(result.lang, Some("fr".to_string()));
    assert_eq!(result.meta, vec![("description".to_string(), "d".to_string())]);
    assert_eq!(result.canonical_url, None);
}
