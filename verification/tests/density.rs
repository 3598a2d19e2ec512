use boilerstrip::convert::density::{per_link_density_score, single_pass_density_score};
use boilerstrip::dom::{load_model, DocModel};
use boilerstrip::html::{parse_document, NodeKind};

fn first_named(m: &DocModel, name: &str) -> usize {
    m.kinds
        .iter()
        .position(|k| matches!(k, NodeKind::Element { name: n, .. } if n == name))
        .expect("element present")
}

fn scores(html: &str, name: &str) -> (i32, i32) {
    let doc = parse_document(html);
    let m = load_model(&doc);
    let k = first_named(&m, name);
    (per_link_density_score(&m, k), single_pass_density_score(&m, k))
}

#[test]
fn density_scores_agree_on_parser_split_nested_links() {
    // The parser closes the outer link before opening the inner one, so the
    // div holds two sibling links of six bytes each.
    let html = "<html><body><div><a href='#'>Hello <a href='#'>nested</a></a></div></body></html>";
    assert_eq!(scores(html, "div"), (-40, -40));
}

#[test]
fn density_scores_of_plain_text() {
    assert_eq!(scores("<html><body><div>Some text here</div></body></html>", "div"), (14, 14));
}

#[test]
fn density_scores_subtract_link_text_and_penalty() {
    let html = "<html><body><div>Intro text <a href='/x'>link</a></div></body></html>";
    assert_eq!(scores(html, "div"), (15 - 4 - 20, 15 - 4 - 20));
}

#[test]
fn single_pass_score_counts_the_scored_link_itself() {
    let html = "<html><body><a href='/x'>abc<span>de</span></a></body></html>";
    assert_eq!(scores(html, "a"), (5, 5 - 5 - 20));
}

#[test]
fn density_scores_count_utf8_bytes() {
    assert_eq!(scores("<html><body><div>é</div></body></html>", "div"), (2, 2));
}
