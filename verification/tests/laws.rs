use boilerstrip::convert::markdown::finalize;
use boilerstrip::text::{is_control, is_whitespace};
use boilerstrip::convert::filter::try_filter_links;
use boilerstrip::convert::selector::{try_remove_by_css_selectors, try_remove_elements};
use boilerstrip::learn::apply::{try_apply_css_selector_removals, try_apply_removals, try_apply_removals_compiled};
use boilerstrip::convert::convert;
use boilerstrip::convert::strip::strip_elements;
use boilerstrip::convert::types::ConvertOptions;
use boilerstrip::convert::markdown::element_to_markdown;
use boilerstrip::convert::parser::{extract_canonical_url, extract_link_tags, extract_meta_tags, LinkValue};
use boilerstrip::dom::load_model;
use boilerstrip::html::{parse_document, select_flags};
use boilerstrip::learn::apply::{apply_removals, apply_removals_compiled, CompiledRemovals};
use boilerstrip::learn::fingerprint::normalized_text_fingerprint;
use boilerstrip::learn::order::compare_snippets_for_removal;
use boilerstrip::learn::types::{Removals, SelectorStats};
use std::cmp::Ordering;

fn s(v: &[&str]) -> Vec<String> {
    v.iter().map(|x| x.to_string()).collect()
}

#[test]
fn recording_a_match_counts_on_its_page_only() {
    let mut st = SelectorStats::new();
    st.record(0, "fp");
    st.record(1, "fp");
    st.record(0, "other");
    assert_eq!(st.total_matches(0), 2);
    assert_eq!(st.total_matches(1), 1);
    assert_eq!(st.total_matches(2), 0);
    assert_eq!(st.fingerprint_matches(0, "fp"), 1);
    assert_eq!(st.fingerprint_matches(0, "other"), 1);
    assert_eq!(st.fingerprint_matches(1, "other"), 0);
}

#[test]
fn compiled_removals_give_what_direct_removals_give() {
    let removals = Removals {
        css_selectors_to_remove: s(&[".nav", "footer"]),
        html_to_remove: s(&["<p>Cookie notice text</p>", "<p>Short</p>"]),
    };
    let html = "  <div class=\"nav\">Menu</div><p>Cookie   notice text</p><main>Body</main><p>short</p><footer>F</footer> ";
    let compiled = CompiledRemovals::new(&removals);
    assert_eq!(apply_removals_compiled(html, &compiled), apply_removals(html, &removals));
    assert_eq!(apply_removals(html, &removals), "<main>Body</main>");
}

#[test]
fn removal_order_is_antisymmetric_and_transitive() {
    let a = "<p>longest one</p>".to_string();
    let b = "<p>middle</p>".to_string();
    let c = "<p>zz</p>".to_string();
    for (x, y) in [(&a, &b), (&b, &c), (&a, &c)] {
        assert_eq!(compare_snippets_for_removal(x, y), Ordering::Less);
        assert_eq!(compare_snippets_for_removal(y, x), Ordering::Greater);
    }
    assert_eq!(compare_snippets_for_removal(&b, &b), Ordering::Equal);
}

#[test]
fn link_and_meta_maps_hold_each_key_once() {
    let doc = parse_document(
        r#"<html><head>
        <meta name="description" content="first"><meta name="description" content="second">
        <link rel="next next" href="/2"><link rel="NEXT" href="/3">
        <link rel="alternate" type="application/rss+xml" href="/feed">
        <link rel="alternate" type="application/rss+xml" href="/feed">
        <link rel="alternate" href="/other"><link rel="alternate" href="/other">
        </head></html>"#,
    );
    let meta = extract_meta_tags(&doc);
    assert_eq!(meta, vec![("description".to_string(), "first".to_string())]);
    let links = extract_link_tags(&doc, None);
    let keys: Vec<&str> = links.iter().map(|(k, _)| k.as_str()).collect();
    assert_eq!(keys, vec!["next", "alternate"]);
    assert!(matches!(&links[0].1, LinkValue::Href(h) if h == "/2"));
    match &links[1].1 {
        LinkValue::Alternates(b) => {
            assert_eq!(b.len(), 2);
            assert_eq!(b[0], ("application/rss+xml".to_string(), s(&["/feed"])));
            assert_eq!(b[1], ("unspecified".to_string(), s(&["/other"])));
        }
        LinkValue::Href(_) => panic!("alternate links are gathered by type"),
    }
}

#[test]
fn metadata_never_carries_an_unsafe_url() {
    let doc = parse_document(
        r#"<html><head>
        <meta property="og:url" content="javascript:alert(1)"><meta property="og:image" content="https://x/i.png">
        <link rel="icon" href="javascript:void(0)"><link rel="alternate" href="data:text/html,x">
        <link rel="canonical" href="vbscript:x">
        </head></html>"#,
    );
    let meta = extract_meta_tags(&doc);
    assert_eq!(meta, vec![("og:image".to_string(), "https://x/i.png".to_string())]);
    assert!(extract_link_tags(&doc, None).is_empty());
    assert_eq!(extract_canonical_url(&doc), None);
}

#[test]
fn markdown_never_holds_two_blank_lines_in_a_row() {
    let doc = parse_document("<body>\n\n<p>One</p><div><br><br><br></div><p></p><p>  </p><p>Two</p>\n\n</body>");
    let body = select_flags(&doc, "body").unwrap().iter().position(|f| *f).unwrap();
    let m = load_model(&doc);
    let out = element_to_markdown(&m, body);
    assert!(!out.contains("\n\n\n"), "{out:?}");
    assert!(!out.starts_with('\n') && !out.ends_with('\n'));
    assert!(out.starts_with("One") && out.ends_with("Two"));
}

#[test]
fn fingerprint_keeps_at_most_the_word_cap() {
    let fp = normalized_text_fingerprint(&"ab, ".repeat(40));
    assert_eq!(fp.matches(' ').count(), 31);
    assert!(!fp.starts_with(' ') && !fp.ends_with(' '));
}

#[test]
fn removing_the_root_element_is_reported_not_a_panic() {
    let html = "<div class=\"nav\">Menu</div><p>Body</p>";
    assert_eq!(try_remove_elements(html, &["html"]), None);
    assert_eq!(try_remove_elements(html, &["div"]), Some("<p>Body</p>".to_string()));
    assert_eq!(try_remove_by_css_selectors(html, Some(&s(&["html"]))), None);
    assert_eq!(try_remove_by_css_selectors(html, Some(&s(&["*"]))), None);
    assert_eq!(try_remove_by_css_selectors(html, Some(&s(&[".nav"]))), Some("<p>Body</p>".to_string()));
    assert_eq!(try_remove_by_css_selectors(html, Some(&s(&["[[["]))), Some(html.to_string()));
    assert_eq!(try_apply_css_selector_removals(html, &s(&["html"])), None);
    let root = Removals { css_selectors_to_remove: s(&["html"]), html_to_remove: vec![] };
    assert_eq!(try_apply_removals(html, &root), None);
    assert_eq!(try_apply_removals_compiled(html, &CompiledRemovals::new(&root)), None);
    let nav = Removals { css_selectors_to_remove: s(&[".nav"]), html_to_remove: vec![] };
    assert_eq!(try_apply_removals(html, &nav), Some("<p>Body</p>".to_string()));
    assert_eq!(try_apply_removals_compiled(html, &CompiledRemovals::new(&nav)), Some("<p>Body</p>".to_string()));
    assert_eq!(
        try_filter_links("<p><a href=\"/x\">Keep</a><a href=\"#\">Drop</a></p>", &vec![], &vec![]),
        Some("<p><a href=\"/x\">Keep</a></p>".to_string())
    );
}

#[test]
fn strict_mode_ambiguity_in_the_streaming_pass_does_not_panic() {
    let html = "<p>Before</p><select><xmp><script>\"use strict\";</script></select><p>After</p>";
    let out = String::from_utf8_lossy(&strip_elements(html, &vec![])).into_owned();
    assert!(out.len() <= html.len());
    let result = convert(html, &ConvertOptions::default());
    assert!(!result.content.contains("use strict"));
}

fn fin(s: &str) -> String {
    finalize(&s.chars().collect()).into_iter().collect()
}

#[test]
fn finishing_markdown_is_idempotent_and_keeps_lines_in_order() {
    for buf in ["a  \n\n\n b\t\n\n", "\r\n x \r\n\r\n\r\ny\u{3000}\n", "", "\n \n", "one\ntwo\n\nthree"] {
        let once = fin(buf);
        assert_eq!(fin(&once), once, "{buf:?}");
        assert!(once.lines().all(|l| l.is_empty() || !l.ends_with(char::is_whitespace)), "{buf:?}");
        let kept: Vec<&str> = buf.lines().map(str::trim_end).filter(|l| !l.trim().is_empty()).collect();
        let out: Vec<&str> = once.lines().filter(|l| !l.trim().is_empty()).collect();
        assert_eq!(out, kept, "{buf:?}");
    }
    assert_eq!(fin("a  \n\n\n b\t\n\n"), "a\n\n b");
}

#[test]
fn fingerprint_is_the_first_words_joined() {
    let text: String = (0..40).map(|i| format!("W{i}-")).collect();
    let words: Vec<String> = (0..40).map(|i| format!("w{}", i.to_string().replace(|c: char| c.is_ascii_digit(), "#"))).collect();
    assert_eq!(normalized_text_fingerprint(&text), words[..32].join(" "));
    assert_eq!(normalized_text_fingerprint("  Ab1 ,, cD  "), "ab# cd");
}

#[test]
fn stable_matches_never_exceed_matches() {
    let mut st = SelectorStats::new();
    st.record(0, "a");
    st.record(0, "b");
    st.record(1, "a");
    st.record(1, "a");
    let s = st.stability(2, 20).expect("one shared fingerprint");
    for p in &s.pages {
        assert!(p.total >= 1 && p.stable <= p.total);
    }
    assert_eq!(s.pages[0].stable, 1);
    assert_eq!(s.pages[1].stable, 2);
}

#[test]
fn whitespace_and_control_classes_match_std() {
    for c in ['\t', '\n', '\u{b}', '\u{c}', '\r', ' ', '\u{85}', '\u{a0}', '\u{1680}', '\u{2000}', '\u{200a}',
        '\u{2028}', '\u{2029}', '\u{202f}', '\u{205f}', '\u{3000}', 'a', '\u{200b}', '\u{180e}', '\u{feff}'] {
        assert_eq!(is_whitespace(c), c.is_whitespace(), "{c:?}");
    }
    for c in ['\u{0}', '\u{1f}', ' ', '\u{7e}', '\u{7f}', '\u{9f}', '\u{a0}', '\u{200b}'] {
        assert_eq!(is_control(c), c.is_control(), "{c:?}");
    }
}
