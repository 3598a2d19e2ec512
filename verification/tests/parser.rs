use boilerstrip::convert::parser::{
    extract_canonical_url, extract_lang, extract_link_tags, extract_meta_tags, extract_title,
    insert_alternate_link, is_safe_url, normalize_link_type, parse_html, LinkValue,
};
use boilerstrip::html::parse_document;

fn meta_get<'a>(meta: &'a [(String, String)], k: &str) -> Option<&'a String> {
    meta.iter().find(|(key, _)| key == k).map(|(_, v)| v)
}

fn link_get<'a>(links: &'a [(String, LinkValue)], k: &str) -> Option<&'a LinkValue> {
    links.iter().find(|(key, _)| key == k).map(|(_, v)| v)
}

fn buckets(v: Option<&LinkValue>) -> Option<&Vec<(String, Vec<String>)>> {
    match v {
        Some(LinkValue::Alternates(b)) => Some(b),
        _ => None,
    }
}

#[test]
fn extract_title_returns_none_for_blank() {
    let doc = parse_document("<html><head><title>   </title></head></html>");
    assert_eq!(extract_title(&doc), None);
}

#[test]
fn extract_title_returns_trimmed_text() {
    let doc = parse_document("<html><head><title>  My Page  </title></head></html>");
    assert_eq!(extract_title(&doc), Some("My Page".to_string()));
}

#[test]
fn extract_meta_tags_first_occurrence_wins() {
    let doc = parse_document(
        r#"<html><head>
          <meta name="description" content="first">
          <meta name="description" content="second">
        </head></html>"#,
    );
    let meta = extract_meta_tags(&doc);
    assert_eq!(meta_get(&meta, "description"), Some(&"first".to_string()));
}

#[test]
fn extract_meta_tags_supports_property_attribute() {
    let doc = parse_document(r#"<html><head><meta property="og:title" content="OG Title"></head></html>"#);
    let meta = extract_meta_tags(&doc);
    assert!(meta_get(&meta, "og:title").is_some());
}

#[test]
fn safe_url_rejects_empty_and_dangerous_schemes() {
    assert!(!is_safe_url(" "));
    assert!(!is_safe_url("data:text/plain,bad"));
    assert!(is_safe_url("/relative:path"));
    assert!(is_safe_url("https://example.com"));
    assert!(!is_safe_url("javascript:alert(1)"));
}

#[test]
fn extract_lang_caps_at_35_chars() {
    let long_lang = "a".repeat(40);
    let doc = parse_document(&format!("<html lang=\"{long_lang}\"></html>"));
    let lang = extract_lang(&doc).expect("lang should be extracted");
    assert_eq!(lang.len(), 35);
}

#[test]
fn extract_lang_returns_none_for_blank() {
    let doc = parse_document("<html lang=\"  \"></html>");
    assert_eq!(extract_lang(&doc), None);
}

#[test]
fn extract_link_tags_excludes_stylesheet_and_preload() {
    let doc = parse_document(
        r#"<html><head>
          <link rel="stylesheet" href="/style.css">
          <link rel="canonical" href="https://example.com">
          <link rel="preload" href="/font.woff2">
        </head></html>"#,
    );
    let links = extract_link_tags(&doc, None);
    assert!(link_get(&links, "stylesheet").is_none());
    assert!(link_get(&links, "preload").is_none());
    assert!(link_get(&links, "canonical").is_some());
}

#[test]
fn extract_link_tags_respects_custom_removal_tokens() {
    let doc = parse_document(r#"<html><head><link rel="canonical" href="https://example.com"></head></html>"#);
    let links = extract_link_tags(&doc, Some(&vec!["canonical".to_string()]));
    assert!(link_get(&links, "canonical").is_none());
}

#[test]
fn extract_canonical_url_rejects_dangerous_scheme() {
    let doc = parse_document(r#"<html><head><link rel="canonical" href="javascript:void(0)"></head></html>"#);
    assert_eq!(extract_canonical_url(&doc), None);
}

#[test]
fn extract_link_tags_skips_link_without_href() {
    let doc = parse_document(r#"<html><head><link rel="canonical"></head></html>"#);
    let links = extract_link_tags(&doc, None);
    assert!(link_get(&links, "canonical").is_none());
}

#[test]
fn extract_meta_tags_skips_meta_without_content() {
    let doc = parse_document(r#"<html><head><meta name="viewport"><meta name="description" content="ok"></head></html>"#);
    let meta = extract_meta_tags(&doc);
    assert!(meta_get(&meta, "viewport").is_none());
    assert!(meta_get(&meta, "description").is_some());
}

#[test]
fn extract_link_tags_handles_alternate_with_type() {
    let doc = parse_document(
        r#"<html><head>
          <link rel="alternate" type="application/rss+xml" href="/feed.xml">
          <link rel="alternate" type="" href="/empty-type">
          <link rel="alternate" href="/no-type">
        </head></html>"#,
    );
    let links = extract_link_tags(&doc, None);
    let alternate = buckets(link_get(&links, "alternate")).expect("alternate key should exist");
    assert!(alternate.iter().any(|(k, _)| k == "application/rss+xml"));
    assert!(alternate.iter().any(|(k, _)| k == "unspecified"));
}

#[test]
fn extract_meta_tags_filters_dangerous_url_meta() {
    let doc = parse_document(
        r#"<html><head>
          <meta property="og:url" content="javascript:alert(1)">
          <meta property="og:title" content="Safe title">
          <meta property="og:image" content="data:image/png,bad">
          <meta property="og:image" content="https://example.com/img.png">
        </head></html>"#,
    );
    let meta = extract_meta_tags(&doc);
    assert!(meta_get(&meta, "og:url").is_none(), "dangerous og:url should be filtered");
    assert!(meta_get(&meta, "og:title").is_some(), "non-URL meta should pass through");
    assert_eq!(
        meta_get(&meta, "og:image").map(|s| s.as_str()),
        Some("https://example.com/img.png"),
        "dangerous data: image filtered, safe https: image accepted"
    );
}

#[test]
fn extract_link_tags_filters_dangerous_href() {
    let doc = parse_document(
        r#"<html><head>
          <link rel="canonical" href="javascript:void(0)">
          <link rel="alternate" href="javascript:void(0)">
        </head></html>"#,
    );
    let links = extract_link_tags(&doc, None);
    assert!(link_get(&links, "canonical").is_none(), "dangerous canonical href filtered");
    assert!(link_get(&links, "alternate").is_none(), "dangerous alternate href filtered");
}

#[test]
fn parse_html_alias_works() {
    let doc = parse_html("<html><head><title>T</title></head></html>");
    assert_eq!(extract_title(&doc), Some("T".to_string()));
}

#[test]
fn base_href_does_not_affect_canonical_extraction() {
    let doc = parse_document(
        r#"<html><head>
          <base href="https://cdn.example.com/">
          <link rel="canonical" href="/page">
        </head></html>"#,
    );
    assert_eq!(extract_canonical_url(&doc), Some("/page".to_string()), "canonical is the verbatim href, not base-resolved");
}

#[test]
fn alternate_link_insert_keeps_plain_entry_and_dedups() {
    let mut links = vec![("alternate".to_string(), LinkValue::Href("bad".to_string()))];
    insert_alternate_link(&mut links, Some("rss"), "/feed");
    assert!(matches!(&links[0].1, LinkValue::Href(h) if h == "bad"));
    let mut links = Vec::new();
    insert_alternate_link(&mut links, None, "/feed");
    insert_alternate_link(&mut links, None, "/feed");
    insert_alternate_link(&mut links, Some("rss"), "/r");
    let b = buckets(link_get(&links, "alternate")).unwrap();
    assert_eq!(b.len(), 2);
    assert_eq!(b[0].0, "unspecified");
    assert_eq!(b[0].1, vec!["/feed".to_string()]);
    assert_eq!(b[1].0, "rss");
}

#[test]
fn link_tokens_are_lowercased_and_first_href_wins() {
    let doc = parse_document(
        r#"<html><head><link rel="ICON shortcut" href="/a.ico"><link rel="icon" href="/b.ico"></head></html>"#,
    );
    let links = extract_link_tags(&doc, None);
    assert!(matches!(link_get(&links, "icon"), Some(LinkValue::Href(h)) if h == "/a.ico"));
    assert!(matches!(link_get(&links, "shortcut"), Some(LinkValue::Href(h)) if h == "/a.ico"));
}

#[test]
fn link_type_is_trimmed_and_lowercased() {
    assert_eq!(normalize_link_type(Some("  Application/RSS+XML ")), Some("application/rss+xml".to_string()));
    assert_eq!(normalize_link_type(Some("   ")), None);
    assert_eq!(normalize_link_type(None), None);
}

#[test]
fn safe_url_scheme_cases() {
    assert!(is_safe_url("HTTP://x"));
    assert!(is_safe_url("  https:y  "));
    assert!(is_safe_url("plain"));
    assert!(is_safe_url("?q=a:b"));
    assert!(!is_safe_url("mailto:a@b"));
    assert!(!is_safe_url(""));
}
