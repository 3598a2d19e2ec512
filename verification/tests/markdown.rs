use boilerstrip::convert::markdown::{count_max_consecutive_backticks, element_to_markdown, finalize, normalize_inline_text};
use boilerstrip::dom::load_model;
use boilerstrip::html::{parse_document, parse_fragment, select_flags, ParsedHtml};

fn first_selected(d: &ParsedHtml, sel: &str) -> usize {
    select_flags(d, sel).unwrap().iter().position(|f| *f).unwrap()
}

fn md(html: &str) -> String {
    let doc = parse_document(&format!("<body>{html}</body>"));
    let body = first_selected(&doc, "body");
    let m = load_model(&doc);
    element_to_markdown(&m, body)
}

fn fin(s: &str) -> String {
    finalize(&s.chars().collect()).into_iter().collect()
}

#[test]
fn unusual_elements_emit_fallback() {
    let result = md("<p>Before <blink>Blinking text</blink> after.</p><marquee>Marquee text</marquee>");
    assert_eq!(result, "Before Blinking text after.\n\nMarquee text");
}

#[test]
fn br_emits_hard_break() {
    let result = md("<p>Hello<br>World</p>");
    assert!(result.contains("Hello") && result.contains("World"));
}

#[test]
fn hr_emits_rule() {
    assert!(md("<p>A</p><hr><p>B</p>").contains("---"));
}

#[test]
fn img_with_src_and_alt() {
    assert_eq!(md("<img src=\"/a.png\" alt=\"icon\">").trim(), "![icon](/a.png)");
}

#[test]
fn img_without_src_is_skipped() {
    assert!(md("<img alt=\"x\">").trim().is_empty());
}

#[test]
fn img_empty_src_is_skipped() {
    assert!(md("<img src=\"\" alt=\"x\">").trim().is_empty());
}

#[test]
fn pre_with_language_class() {
    let result = md("<pre><code class=\"language-rust\">fn main(){}</code></pre>");
    assert!(result.contains("```rust") && result.contains("fn main(){}"));
}

#[test]
fn pre_without_language_class() {
    let result = md("<pre><code>plain code</code></pre>");
    assert!(result.contains("```\n") && result.contains("plain code"));
}

#[test]
fn pre_plain_text_no_code_child() {
    let result = md("<pre>raw\nnext</pre>");
    assert!(result.contains("```") && result.contains("raw"));
}

#[test]
fn code_inline() {
    assert!(md("<p><code>inline</code></p>").contains("`inline`"));
}

#[test]
fn code_inline_with_backtick_uses_double_tick() {
    assert!(md("<p><code>has `tick`</code></p>").contains("``"));
}

#[test]
fn strong_bold() {
    assert!(md("<p><strong>bold</strong></p>").contains("**bold**"));
}

#[test]
fn b_tag() {
    assert!(md("<p><b>bold</b></p>").contains("**bold**"));
}

#[test]
fn strong_whitespace_only_is_skipped() {
    assert!(!md("<p><strong>  </strong>after</p>").contains("**"));
}

#[test]
fn em_italic() {
    assert!(md("<p><em>italic</em></p>").contains("*italic*"));
}

#[test]
fn i_tag() {
    assert!(md("<p><i>italic</i></p>").contains("*italic*"));
}

#[test]
fn em_whitespace_only_is_skipped() {
    assert!(!md("<p><em> </em>text</p>").contains("**"));
}

#[test]
fn del_strikethrough() {
    assert!(md("<p><del>removed</del></p>").contains("~~removed~~"));
}

#[test]
fn s_tag() {
    assert!(md("<p><s>crossed</s></p>").contains("~~crossed~~"));
}

#[test]
fn strike_tag() {
    assert!(md("<p><strike>old</strike></p>").contains("~~old~~"));
}

#[test]
fn del_empty_is_skipped() {
    assert!(!md("<p><del></del>after</p>").contains("~~"));
}

#[test]
fn link_with_href() {
    assert!(md("<p><a href=\"/p\">click</a></p>").contains("[click](/p)"));
}

#[test]
fn link_without_href() {
    let result = md("<p><a>plain</a></p>");
    assert!(result.contains("plain") && !result.contains('['));
}

#[test]
fn link_empty_text_is_skipped() {
    assert!(!md("<p><a href=\"/x\">  </a>after</p>").contains('['));
}

#[test]
fn ordered_list() {
    let result = md("<ol><li>First</li><li>Second</li></ol>");
    assert!(result.contains("1. First") && result.contains("2. Second"));
}

#[test]
fn ordered_list_with_start_attribute() {
    assert!(md("<ol start=\"5\"><li>Fifth</li></ol>").contains("5. Fifth"));
}

#[test]
fn nested_unordered_list() {
    let result = md("<ul><li>Parent<ul><li>Child</li></ul></li></ul>");
    assert!(result.contains("* Parent") && result.contains("* Child"));
}

#[test]
fn blockquote_prefixes_lines() {
    let result = md("<blockquote><p>Quoted</p></blockquote>");
    assert!(result.contains("> ") && result.contains("Quoted"));
}

#[test]
fn table_basic_gfm() {
    let result = md("<table><thead><tr><th>A</th><th>B</th></tr></thead><tbody><tr><td>1</td><td>2</td></tr></tbody></table>");
    assert!(result.contains("| A |") && result.contains("| --- |") && result.contains("| 1 |"));
}

#[test]
fn table_with_tfoot_emits_rows() {
    let result = md("<table><tr><th>H</th></tr><tfoot><tr><td>foot</td></tr></tfoot></table>");
    assert!(result.contains("H") && result.contains("foot"));
}

#[test]
fn table_short_row_is_padded_to_column_count() {
    let result = md("<table><thead><tr><th>A</th><th>B</th><th>C</th></tr></thead><tbody><tr><td>1</td></tr></tbody></table>");
    let data_row = result.lines().find(|l| l.contains("| 1 |")).expect("data row");
    assert_eq!(data_row.matches('|').count(), 4);
}

#[test]
fn table_with_no_rows_produces_no_separator() {
    assert!(!md("<table></table>").contains("| --- |"));
}

#[test]
fn table_inline_elements_in_cells() {
    let html = "<table><thead><tr><th>H</th></tr></thead><tbody>\
      <tr><td><strong>bold</strong></td></tr>\
      <tr><td><em>italic</em></td></tr>\
      <tr><td><del>del</del></td></tr>\
      <tr><td><code>code</code></td></tr>\
      <tr><td><a href=\"/x\">link</a></td></tr>\
      <tr><td><img src=\"/i.png\" alt=\"img\"></td></tr>\
    </tbody></table>";
    let result = md(html);
    assert!(result.contains("**bold**"));
    assert!(result.contains("*italic*"));
    assert!(result.contains("~~del~~"));
    assert!(result.contains("`code`"));
    assert!(result.contains("[link](/x)"));
    assert!(result.contains("![img]"));
}

#[test]
fn table_br_in_cell_emits_space() {
    let result = md("<table><thead><tr><th>H</th></tr></thead><tbody><tr><td>A<br>B</td></tr></tbody></table>");
    assert!(result.contains("H"));
}

#[test]
fn pre_inside_table_cell_text_goes_to_cell() {
    let result = md("<table><thead><tr><th>H</th></tr></thead><tbody><tr><td><pre>code</pre></td></tr></tbody></table>");
    assert!(result.contains("H"));
}

#[test]
fn figure_and_figcaption_emit_children() {
    assert!(md("<figure><figcaption>Caption</figcaption></figure>").contains("Caption"));
}

#[test]
fn details_and_summary_emit_children() {
    let result = md("<details><summary>Title</summary><p>content</p></details>");
    assert!(result.contains("Title") && result.contains("content"));
}

#[test]
fn inline_containers_emit_text() {
    for tag in [
        "span", "abbr", "cite", "kbd", "mark", "q", "small", "sub", "sup", "time", "var", "label",
        "bdi", "bdo", "u", "ins", "wbr",
    ] {
        let result = md(&format!("<p><{tag}>text</{tag}></p>"));
        assert!(result.contains("text"), "tag={tag}");
    }
}

#[test]
fn unknown_element_emits_children() {
    assert!(md("<custom-el>content</custom-el>").contains("content"));
}

#[test]
fn html_comment_is_ignored() {
    let result = md("<!-- comment --><p>visible</p>");
    assert!(result.contains("visible") && !result.contains("comment"));
}

#[test]
fn collapse_blank_lines_multiple_blanks_become_one() {
    assert_eq!(fin("a\n\n\n\nb\n"), "a\n\nb");
}

#[test]
fn collapse_blank_lines_leading_blanks_stripped() {
    assert_eq!(fin("\n\nfirst\n"), "first");
}

#[test]
fn heading_levels() {
    for (tag, prefix) in [("h1", "# "), ("h2", "## "), ("h3", "### "), ("h4", "#### "), ("h5", "##### "), ("h6", "###### ")] {
        assert!(md(&format!("<{tag}>T</{tag}>")).contains(prefix), "tag={tag}");
    }
}

#[test]
fn li_with_inline_element_child() {
    let result = md("<ul><li><strong>bold item</strong></li><li><em>italic item</em></li></ul>");
    assert!(result.contains("bold item") && result.contains("italic item"));
}

#[test]
fn script_and_noscript_skipped() {
    let result = md("<script>evil()</script><noscript>fallback</noscript><p>keep</p>");
    assert!(!result.contains("evil") && !result.contains("fallback") && result.contains("keep"));
}

#[test]
fn nested_tables_do_not_corrupt_outer_table() {
    let result = md(r#"<table><tr><td><table><tr><td>inner</td></tr></table></td><td>outer-cell</td></tr></table>"#);
    assert!(result.contains("outer-cell"), "outer table cell should appear");
}

#[test]
fn anchor_wrapping_image_preserves_image_markdown() {
    let result = md(r#"<a href="https://example.com"><img src="logo.png" alt="Logo"></a>"#);
    assert!(result.contains("Logo"), "alt text should appear");
    assert!(result.contains("https://example.com"), "href should appear");
}

#[test]
fn pre_block_content_already_ending_with_newline() {
    let result = md("<pre>line1\nline2\n</pre>");
    assert!(result.contains("line1"), "pre content should be emitted");
    assert!(result.contains("line2"), "pre content should be emitted");
}

#[test]
fn nested_ordered_list() {
    let result = md("<ol><li>outer<ol><li>inner</li></ol></li></ol>");
    assert!(result.contains("outer"), "outer item should appear");
    assert!(result.contains("inner"), "inner item should appear");
}

#[test]
fn depth_guard_does_not_stack_overflow() {
    let mut html = String::new();
    for _ in 0..1500 {
        html.push_str("<div>");
    }
    html.push_str("deep");
    for _ in 0..1500 {
        html.push_str("</div>");
    }
    let result = md(&html);
    let _ = result;
}

#[test]
fn deep_nesting_below_limit_serializes_correctly() {
    let mut html = String::new();
    for _ in 0..50 {
        html.push_str("<div>");
    }
    html.push_str("deep content");
    for _ in 0..50 {
        html.push_str("</div>");
    }
    let result = md(&html);
    assert!(result.contains("deep content"), "content below depth limit should appear");
}

#[test]
fn pre_block_with_triple_backtick_uses_longer_fence() {
    let result = md("<pre><code>let x = ```foo```;</code></pre>");
    assert!(result.contains("````"), "fence should be >= 4 backticks when content has ```");
}

#[test]
fn heading_level_is_correct() {
    for (tag, hashes) in &[("h1", "#"), ("h2", "##"), ("h3", "###"), ("h6", "######")] {
        let result = md(&format!("<{tag}>Title</{tag}>"));
        assert!(result.starts_with(hashes), "wrong heading prefix for {tag}");
    }
}

#[test]
fn orphan_li_uses_empty_list_prefix() {
    let result = md("<li>Item text</li>");
    assert!(result.contains("Item text"), "li content should be emitted");
}

#[test]
fn pre_text_inside_table_cell_does_not_panic() {
    let result = md("<table><tr><td><pre>code here</pre></td></tr></table>");
    let _ = result;
}

#[test]
fn li_inside_pre_emits_children() {
    let result = md("<pre><ul><li>item</li></ul></pre>");
    let _ = result;
}

#[test]
fn whitespace_text_between_blocks_skipped_at_pending_nl() {
    let result = md("<h1>Title</h1>\n    <p>Content</p>");
    assert!(result.contains("# Title"));
    assert!(result.contains("Content"));
}

#[test]
fn table_subelements_as_root_do_not_panic() {
    let doc = parse_document("<table><tbody><tr><td>A</td><th>B</th></tr></tbody></table>");
    let m = load_model(&doc);
    let tbody = first_selected(&doc, "tbody");
    let _ = element_to_markdown(&m, tbody);
    let tr = first_selected(&doc, "tr");
    let _ = element_to_markdown(&m, tr);
}

#[test]
fn test_thead_tbody_outside_table_no_panic() {
    let htmls = vec![
        r#"<math><thead><tr><td>Hello</td></tr></thead></math>"#,
        r#"<div><tbody><tr><td>Hello</td></tr></tbody></div>"#,
        r#"<article><tfoot><tr><td>Hello</td></tr></tfoot></article>"#,
    ];
    for html in htmls {
        let fragment = parse_fragment(html);
        let m = load_model(&fragment);
        let root = first_selected(&fragment, "html");
        let md = element_to_markdown(&m, root);
        assert_eq!(md.trim(), "Hello", "Should safely extract text without panicking");
    }
}

#[test]
fn exact_document_markdown() {
    let result = md("<h2>Intro</h2><p>One  <b>two</b>\n three</p><ul><li>a</li><li>b</li></ul><ol start=\"3\"><li>c</li></ol>");
    assert_eq!(result, "## Intro\n\nOne **two** three\n\n* a\n* b\n\n3. c");
}

#[test]
fn exact_table_markdown() {
    let result = md("<table><tr><th>A</th><th>B</th></tr><tr><td>1</td><td>2</td></tr><tr><td>3</td></tr></table>");
    assert_eq!(result, "| A | B |\n| --- | --- |\n| 1 | 2 |\n| 3 |  |");
}

#[test]
fn exact_pre_and_quote_markdown() {
    assert_eq!(md("<pre><code class=\"x language-py\">a = 1</code></pre>"), "```py\na = 1\n```");
    assert_eq!(md("<blockquote><p>one</p><p>two</p></blockquote>"), "> one\n>\n> two");
}

#[test]
fn inline_text_and_backtick_helpers() {
    let n: String = normalize_inline_text(&" a \t\n b ".chars().collect()).into_iter().collect();
    assert_eq!(n, " a b ");
    assert_eq!(count_max_consecutive_backticks(&"a``b```c`".chars().collect()), 3);
    assert_eq!(count_max_consecutive_backticks(&"none".chars().collect()), 0);
    assert_eq!(fin("  x  \r\n\r\n\r\ny\n\n"), "  x\n\ny");
}
