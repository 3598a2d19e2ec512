//! Access to parsed HTML documents.
//!
//! Parsing, CSS selector matching and serialization are done by `scraper`
//! (html5ever and `selectors`).  Everything the library decides is made over
//! plain values read from the parsed tree: the kind of each node of the
//! tree's arena (in arena order) and the children of each node, named below
//! as functions of the source text.

use vstd::prelude::*;
use scraper::{ElementRef, Html, Node, Selector};

verus! {

#[verifier::external_type_specification]
#[verifier::external_body]
pub struct ExHtml(scraper::Html);

#[verifier::external_type_specification]
#[verifier::external_body]
pub struct ExNodeId(ego_tree::NodeId);

/// One attribute of an element: whether it is in no namespace, its local
/// name and its value.
pub struct Attr {
    pub plain: bool,
    pub name: String,
    pub value: String,
}

pub struct AttrView {
    pub plain: bool,
    pub name: Seq<char>,
    pub value: Seq<char>,
}

impl View for Attr {
    type V = AttrView;

    open spec fn view(&self) -> AttrView {
        AttrView { plain: self.plain, name: self.name@, value: self.value@ }
    }
}

/// What a node of the tree holds.
pub enum NodeKind {
    Element { name: String, attrs: Vec<Attr> },
    Text { text: String },
    Other,
}

pub enum NodeKindView {
    Element { name: Seq<char>, attrs: Seq<AttrView> },
    Text { text: Seq<char> },
    Other,
}

pub open spec fn attrs_view(attrs: Seq<Attr>) -> Seq<AttrView> {
    attrs.map_values(|a: Attr| a@)
}

impl View for NodeKind {
    type V = NodeKindView;

    open spec fn view(&self) -> NodeKindView {
        match self {
            NodeKind::Element { name, attrs } => NodeKindView::Element {
                name: name@,
                attrs: attrs_view(attrs@),
            },
            NodeKind::Text { text } => NodeKindView::Text { text: text@ },
            NodeKind::Other => NodeKindView::Other,
        }
    }
}

pub open spec fn kinds_view(kinds: Seq<NodeKind>) -> Seq<NodeKindView> {
    kinds.map_values(|k: NodeKind| k@)
}

/// The node kinds, in arena order, of the tree that html5ever builds from
/// `source` (as a fragment when `fragment` holds).  Index 0 is the tree's root.
pub uninterp spec fn html_node_kinds(source: Seq<char>, fragment: bool) -> Seq<NodeKindView>;

/// The children (arena indices, in order) of each arena node of that tree
/// once the nodes listed in `removed` have been detached.
pub uninterp spec fn html_node_children(
    source: Seq<char>,
    fragment: bool,
    removed: Seq<usize>,
) -> Seq<Seq<usize>>;

/// Whether `selector` is a CSS selector list that `scraper` accepts.
pub uninterp spec fn css_selector_parses(selector: Seq<char>) -> bool;

/// For each arena node, whether `Html::select` with `selector` yields it:
/// it is an element that has a parent and matches the selector.
pub uninterp spec fn html_select_flags(
    source: Seq<char>,
    fragment: bool,
    removed: Seq<usize>,
    selector: Seq<char>,
) -> Seq<bool>;

/// The serialization (`ElementRef::html`) of arena node `node`, once the
/// nodes in `removed` have been detached; empty when it is not an element.
pub uninterp spec fn html_outer_html(
    source: Seq<char>,
    fragment: bool,
    removed: Seq<usize>,
    node: usize,
) -> Seq<char>;

/// The inner HTML of the root `<html>` element once the nodes in `removed`
/// have been detached.
pub uninterp spec fn html_root_inner_html(
    source: Seq<char>,
    fragment: bool,
    removed: Seq<usize>,
) -> Seq<char>;

/// A parsed HTML tree together with the text it was parsed from and the
/// arena nodes that have been detached from it since.
pub struct ParsedHtml {
    doc: Html,
    ids: Vec<ego_tree::NodeId>,
    source: String,
    fragment: bool,
    removed: Vec<usize>,
}

impl ParsedHtml {
    pub closed spec fn source_text(self) -> Seq<char> {
        self.source@
    }

    pub closed spec fn is_fragment(self) -> bool {
        self.fragment
    }

    pub closed spec fn removed_nodes(self) -> Seq<usize> {
        self.removed@
    }

    pub closed spec fn node_count(self) -> nat {
        self.ids@.len()
    }
}

/// `Html::parse_document`.  The arena node ids are kept to address nodes by
/// their arena index.
#[verifier::external_body]
pub fn parse_document(html: &str) -> (r: ParsedHtml)
    ensures
        r.source_text() == html@,
        !r.is_fragment(),
        r.removed_nodes() == Seq::<usize>::empty(),
        r.node_count() == html_node_kinds(html@, false).len(),
{
    let doc = Html::parse_document(html);
    let ids = doc.tree.nodes().map(|n| n.id()).collect();
    ParsedHtml { doc, ids, source: html.to_string(), fragment: false, removed: Vec::new() }
}

/// `Html::parse_fragment`.
#[verifier::external_body]
pub fn parse_fragment(html: &str) -> (r: ParsedHtml)
    ensures
        r.source_text() == html@,
        r.is_fragment(),
        r.removed_nodes() == Seq::<usize>::empty(),
        r.node_count() == html_node_kinds(html@, true).len(),
{
    let doc = Html::parse_fragment(html);
    let ids = doc.tree.nodes().map(|n| n.id()).collect();
    ParsedHtml { doc, ids, source: html.to_string(), fragment: true, removed: Vec::new() }
}

/// The value of every arena node (`Tree::nodes`), converted to plain values.
#[verifier::external_body]
pub fn node_kinds(d: &ParsedHtml) -> (r: Vec<NodeKind>)
    ensures
        kinds_view(r@) == html_node_kinds(d.source_text(), d.is_fragment()),
        r@.len() == d.node_count(),
{
    d.doc.tree.nodes().map(|n| match n.value() {
        Node::Element(e) => NodeKind::Element {
            name: e.name().to_string(),
            attrs: e.attrs.iter().map(|(q, v)| Attr {
                plain: q.ns.is_empty(), name: q.local.to_string(), value: v.to_string() })
                .collect(),
        },
        Node::Text(t) => NodeKind::Text { text: t.to_string() },
        _ => NodeKind::Other,
    }).collect()
}

/// The children of every arena node (`NodeRef::children`), each child given
/// by its arena index.
#[verifier::external_body]
pub fn node_children(d: &ParsedHtml) -> (r: Vec<Vec<usize>>)
    ensures
        r@.map_values(|c: Vec<usize>| c@)
            == html_node_children(d.source_text(), d.is_fragment(), d.removed_nodes()),
        r@.len() == d.node_count(),
        forall|i: int, j: int|
            0 <= i < r@.len() && 0 <= j < r@[i]@.len() ==> #[trigger] r@[i]@[j] < r@.len(),
{
    let ids = &d.ids;
    d.doc.tree.nodes().map(|n| n.children()
        .map(|c| ids.binary_search(&c.id()).unwrap_or(0)).collect()).collect()
}

/// `Selector::parse` followed by `Html::select`: `None` when the selector
/// does not parse, else, for each arena node, whether the selection yields it.
pub fn select_flags(d: &ParsedHtml, selector: &str) -> (r: Option<Vec<bool>>)
    ensures
        r is None <==> !css_selector_parses(selector@),
        r matches Some(flags) ==> flags@ == html_select_flags(
            d.source_text(), d.is_fragment(), d.removed_nodes(), selector@),
        r matches Some(flags) ==> flags@.len() == d.node_count(),
{
    match compile_selector(selector) {
        None => None,
        Some(c) => Some(select_flags_compiled(d, &c)),
    }
}

/// `ElementRef::html` of arena node `node`.
#[verifier::external_body]
pub fn outer_html(d: &ParsedHtml, node: usize) -> (r: String)
    requires
        node < d.node_count(),
    ensures
        r@ == html_outer_html(d.source_text(), d.is_fragment(), d.removed_nodes(), node),
{
    d.doc.tree.get(d.ids[node]).and_then(ElementRef::wrap).map(|e| e.html()).unwrap_or_default()
}

/// The tree's root (arena index 0) still has an element among its
/// children: the element that `Html::root_element` looks for.
pub open spec fn root_element_present(source: Seq<char>, fragment: bool, removed: Seq<usize>) -> bool {
    let kinds = html_node_kinds(source, fragment);
    let ch = html_node_children(source, fragment, removed);
    &&& ch.len() > 0
    &&& exists|j: int| 0 <= j < ch[0].len() && (#[trigger] kinds[ch[0][j] as int]) is Element
}

/// `ElementRef::inner_html` of `Html::root_element`, which panics when the
/// root has no element child left: that input is excluded.
#[verifier::external_body]
pub fn root_inner_html(d: &ParsedHtml) -> (r: String)
    requires
        root_element_present(d.source_text(), d.is_fragment(), d.removed_nodes()),
    ensures
        r@ == html_root_inner_html(d.source_text(), d.is_fragment(), d.removed_nodes()),
{
    d.doc.root_element().inner_html()
}

/// `NodeMut::detach` of arena node `node`.
#[verifier::external_body]
pub fn detach(d: &mut ParsedHtml, node: usize)
    requires
        node < old(d).node_count(),
    ensures
        final(d).source_text() == old(d).source_text(),
        final(d).is_fragment() == old(d).is_fragment(),
        final(d).node_count() == old(d).node_count(),
        final(d).removed_nodes() == old(d).removed_nodes().push(node),
{
    if let Some(mut n) = d.doc.tree.get_mut(d.ids[node]) {
        n.detach();
    }
    d.removed.push(node);
}

#[verifier::external_type_specification]
#[verifier::external_body]
pub struct ExSelector(scraper::Selector);

/// A parsed CSS selector together with its text.
pub struct CompiledSelector {
    sel: Selector,
    text: String,
}

impl CompiledSelector {
    pub closed spec fn text(&self) -> Seq<char> {
        self.text@
    }
}

/// `Selector::parse`: `Some` exactly when the selector parses.
#[verifier::external_body]
pub fn compile_selector(selector: &str) -> (r: Option<CompiledSelector>)
    ensures
        r is Some <==> css_selector_parses(selector@),
        r matches Some(c) ==> c.text() == selector@,
{
    Selector::parse(selector).ok().map(|sel| CompiledSelector { sel, text: selector.to_string() })
}

/// `Html::select` with a parsed selector: for each arena node, whether the
/// selection yields it.
#[verifier::external_body]
pub fn select_flags_compiled(d: &ParsedHtml, c: &CompiledSelector) -> (r: Vec<bool>)
    ensures
        r@ == html_select_flags(d.source_text(), d.is_fragment(), d.removed_nodes(), c.text()),
        r@.len() == d.node_count(),
{
    d.doc.tree.nodes().map(|n| n.parent().is_some()
        && ElementRef::wrap(n).is_some_and(|e| c.sel.matches(&e))).collect()
}

} // verus!
