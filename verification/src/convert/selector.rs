//! Element removal by tag name and content-root selection.

use vstd::prelude::*;
use crate::dom::{
    all_named, all_named_exec, collect_flagged, detach_all, flagged_ids, has_parent, load_model,
    parent_flags, root_element_kept, tree_children, tree_kinds,
};
use crate::convert::parser::first_flagged;
use crate::learn::types::strings_view;
use crate::html::{
    css_selector_parses, html_node_children, html_node_kinds, html_root_inner_html,
    html_select_flags, parse_fragment, root_element_present, root_inner_html, select_flags, NodeKind, NodeKindView,
    ParsedHtml,
};
use crate::text::str_eq;

verus! {

/// Whether a node is an element whose name is one of `tags`.
pub open spec fn element_named_in(k: NodeKindView, tags: Seq<Seq<char>>) -> bool {
    match k {
        NodeKindView::Element { name, .. } => tags.contains(name),
        _ => false,
    }
}

/// The nodes `remove_elements` detaches: every element that has a parent
/// (what selecting `*` yields) and whose name is one of `tags`.
pub open spec fn tag_removal_flags(
    kinds: Seq<NodeKindView>,
    ch: Seq<Seq<usize>>,
    tags: Seq<Seq<char>>,
) -> Seq<bool> {
    Seq::new(kinds.len(), |k: int| has_parent(ch, k) && element_named_in(kinds[k], tags))
}

/// The nodes that `remove_elements` detaches from the fragment `html`.
pub open spec fn tag_removed_nodes(html: Seq<char>, tags: Seq<Seq<char>>) -> Seq<usize> {
    let kinds = html_node_kinds(html, true);
    flagged_ids(tag_removal_flags(kinds, html_node_children(html, true, Seq::empty()), tags), kinds.len() as int)
}

pub open spec fn spec_remove_elements(html: Seq<char>, tags: Seq<Seq<char>>) -> Seq<char> {
    html_root_inner_html(html, true, tag_removed_nodes(html, tags))
}

pub open spec fn strs_view(v: Seq<&str>) -> Seq<Seq<char>> {
    v.map_values(|t: &str| t@)
}

fn name_in_tags(name: &String, tags: &[&str]) -> (r: bool)
    ensures
        r == strs_view(tags@).contains(name@),
{
    let mut i: usize = 0;
    while i < tags.len()
        invariant
            i <= tags@.len(),
            forall|t: int| 0 <= t < i ==> tags@[t]@ != name@,
        decreases tags@.len() - i,
    {
        if str_eq(name.as_str(), tags[i]) {
            assert(strs_view(tags@)[i as int] == name@);
            return true;
        }
        i = i + 1;
    }
    proof {
        if strs_view(tags@).contains(name@) {
            let t = choose|t: int| 0 <= t < strs_view(tags@).len() && strs_view(tags@)[t] == name@;
            assert(tags@[t]@ == name@);
        }
    }
    false
}

/// The fragment `html` parsed, with the elements named in `tags` detached.
fn tag_removed_tree(html: &str, tags: &[&str]) -> (d: ParsedHtml)
    ensures
        d.source_text() == html@,
        d.is_fragment(),
        d.removed_nodes() == tag_removed_nodes(html@, strs_view(tags@)),
{
    let mut d = parse_fragment(html);
    let m = load_model(&d);
    let parents = parent_flags(&m);
    let n = m.kinds.len();
    let mut flags: Vec<bool> = Vec::new();
    let ghost want = tag_removal_flags(m.kinds_v(), m.children_v(), strs_view(tags@));
    let mut k: usize = 0;
    while k < n
        invariant
            k <= n,
            n == m.kinds@.len(),
            m.wf(),
            parents@.len() == n,
            forall|t: int| 0 <= t < n ==> parents@[t] == has_parent(m.children_v(), t),
            want == tag_removal_flags(m.kinds_v(), m.children_v(), strs_view(tags@)),
            flags@ == want.take(k as int),
        decreases n - k,
    {
        let hit = match &m.kinds[k] {
            NodeKind::Element { name, .. } => parents[k] && name_in_tags(name, tags),
            NodeKind::Text { .. } => false,
            NodeKind::Other => false,
        };
        proof {
            assert(m.kinds_v()[k as int] == m.kinds@[k as int]@);
        }
        flags.push(hit);
        assert(flags@ == want.take(k + 1));
        k = k + 1;
    }
    assert(want.take(n as int) == want);
    let ids = collect_flagged(&flags);
    detach_all(&mut d, &ids);
    d
}

/// Strips the elements whose tag name is one of `tags` from an HTML
/// fragment, working on the parsed tree, and serializes what is left.  The
/// root `<html>` element must survive (it is serialized).
pub fn remove_elements(html: &str, tags: &[&str]) -> (r: String)
    requires
        root_element_present(html@, true, tag_removed_nodes(html@, strs_view(tags@))),
    ensures
        r@ == spec_remove_elements(html@, strs_view(tags@)),
{
    let d = tag_removed_tree(html, tags);
    root_inner_html(&d)
}

/// `remove_elements`, or `None` when the removal would take the root
/// `<html>` element itself (as removing the tag `html` does).
pub fn try_remove_elements(html: &str, tags: &[&str]) -> (r: Option<String>)
    ensures
        r is Some <==> root_element_present(html@, true, tag_removed_nodes(html@, strs_view(tags@))),
        r matches Some(s) ==> s@ == spec_remove_elements(html@, strs_view(tags@)),
{
    let d = tag_removed_tree(html, tags);
    if root_element_kept(&d) {
        Some(remove_elements(html, tags))
    } else {
        None
    }
}

/// For each node of the fragment `html`, whether one of the selectors that
/// parse selects it.
pub open spec fn css_union_flags(html: Seq<char>, sels: Seq<Seq<char>>) -> Seq<bool> {
    Seq::new(html_node_kinds(html, true).len(), |k: int|
        exists|i: int| 0 <= i < sels.len() && css_selector_parses(#[trigger] sels[i])
            && html_select_flags(html, true, Seq::empty(), sels[i])[k])
}

/// Some selector parses.
pub open spec fn some_parses(sels: Seq<Seq<char>>) -> bool {
    exists|i: int| 0 <= i < sels.len() && css_selector_parses(#[trigger] sels[i])
}

/// The nodes of the fragment `html` that one of the selectors selects.
pub open spec fn css_removed_nodes(html: Seq<char>, sels: Seq<Seq<char>>) -> Seq<usize> {
    flagged_ids(css_union_flags(html, sels), html_node_kinds(html, true).len() as int)
}

/// `html` unchanged when no selector is given or none parses, else the
/// fragment without the selected elements, serialized.
pub open spec fn spec_remove_by_css(html: Seq<char>, sels: Option<Seq<Seq<char>>>) -> Seq<char> {
    match sels {
        None => html,
        Some(s) => if s.len() == 0 || !some_parses(s) {
            html
        } else {
            html_root_inner_html(html, true, css_removed_nodes(html, s))
        },
    }
}

/// The root `<html>` element survives the removal, when there is one.
pub open spec fn css_removal_keeps_root(html: Seq<char>, sels: Option<Seq<Seq<char>>>) -> bool {
    match sels {
        None => true,
        Some(s) => s.len() == 0 || !some_parses(s) || root_element_present(html, true, css_removed_nodes(html, s)),
    }
}

pub open spec fn opt_strings_view(v: Option<&Vec<String>>) -> Option<Seq<Seq<char>>> {
    match v {
        None => None,
        Some(s) => Some(strings_view(s@)),
    }
}

/// Removes every element that one of the selectors matches.  Selectors that
/// do not parse are skipped; when none parses, or none is given, the input
/// is returned unchanged.  The root `<html>` element must survive (it is
/// serialized).
pub fn remove_by_css_selectors(html: &str, selectors: Option<&Vec<String>>) -> (r: String)
    requires
        css_removal_keeps_root(html@, opt_strings_view(selectors)),
    ensures
        r@ == spec_remove_by_css(html@, opt_strings_view(selectors)),
{
    match css_removed_tree(html, selectors) {
        None => html.to_owned(),
        Some(d) => root_inner_html(&d),
    }
}

/// `remove_by_css_selectors`, or `None` when the removal would take the
/// root `<html>` element itself (as the selector `html` does).
pub fn try_remove_by_css_selectors(html: &str, selectors: Option<&Vec<String>>) -> (r: Option<String>)
    ensures
        r is Some <==> css_removal_keeps_root(html@, opt_strings_view(selectors)),
        r matches Some(s) ==> s@ == spec_remove_by_css(html@, opt_strings_view(selectors)),
{
    match css_removed_tree(html, selectors) {
        None => Some(html.to_owned()),
        Some(d) => if root_element_kept(&d) { Some(remove_by_css_selectors(html, selectors)) } else { None },
    }
}

/// `None` when no selector is given or none parses, else the fragment
/// `html` parsed with the selected elements detached.
fn css_removed_tree(html: &str, selectors: Option<&Vec<String>>) -> (r: Option<ParsedHtml>)
    ensures
        match selectors {
            None => r is None,
            Some(s) => if s@.len() == 0 || !some_parses(strings_view(s@)) {
                r is None
            } else {
                r matches Some(d) && d.source_text() == html@ && d.is_fragment()
                    && d.removed_nodes() == css_removed_nodes(html@, strings_view(s@))
            },
        },
{
    let sels = match selectors {
        None => return None,
        Some(s) => s,
    };
    if sels.len() == 0 {
        return None;
    }
    let ghost sv = strings_view(sels@);
    let mut d = parse_fragment(html);
    let n = d_node_count(&d);
    let ghost want = css_union_flags(html@, sv);
    let mut flags: Vec<bool> = Vec::new();
    let mut k: usize = 0;
    while k < n
        invariant
            k <= n,
            n == html_node_kinds(html@, true).len(),
            flags@.len() == k,
            forall|t: int| 0 <= t < k ==> !flags@[t],
        decreases n - k,
    {
        flags.push(false);
        k = k + 1;
    }
    let mut any = false;
    let mut i: usize = 0;
    while i < sels.len()
        invariant
            i <= sels@.len(),
            sv == strings_view(sels@),
            d.source_text() == html@,
            d.is_fragment(),
            d.removed_nodes() == Seq::<usize>::empty(),
            n == html_node_kinds(html@, true).len(),
            n == d.node_count(),
            flags@.len() == n,
            forall|t: int| 0 <= t < n ==> flags@[t] == exists|j: int| 0 <= j < i && css_selector_parses(#[trigger] sv[j])
                && html_select_flags(html@, true, Seq::empty(), sv[j])[t],
            any == exists|j: int| 0 <= j < i && css_selector_parses(#[trigger] sv[j]),
        decreases sels@.len() - i,
    {
        assert(sv[i as int] == sels@[i as int]@);
        match select_flags(&d, sels[i].as_str()) {
            None => {},
            Some(f) => {
                any = true;
                let mut t: usize = 0;
                while t < n
                    invariant
                        t <= n,
                        f@.len() == n,
                        flags@.len() == n,
                        f@ == html_select_flags(html@, true, Seq::empty(), sv[i as int]),
                        css_selector_parses(sv[i as int]),
                        forall|q: int| 0 <= q < t ==> flags@[q] == (exists|j: int| 0 <= j < i + 1 && css_selector_parses(#[trigger] sv[j])
                            && html_select_flags(html@, true, Seq::empty(), sv[j])[q]),
                        forall|q: int| t <= q < n ==> flags@[q] == (exists|j: int| 0 <= j < i && css_selector_parses(#[trigger] sv[j])
                            && html_select_flags(html@, true, Seq::empty(), sv[j])[q]),
                    decreases n - t,
                {
                    if f[t] {
                        flags.set(t, true);
                    }
                    t = t + 1;
                }
            },
        }
        proof {
            assert forall|q: int| 0 <= q < n implies flags@[q] == (exists|j: int| 0 <= j < i + 1 && css_selector_parses(#[trigger] sv[j])
                && html_select_flags(html@, true, Seq::empty(), sv[j])[q]) by {
                if !css_selector_parses(sv[i as int]) {
                    if exists|j: int| 0 <= j < i + 1 && css_selector_parses(#[trigger] sv[j])
                        && html_select_flags(html@, true, Seq::empty(), sv[j])[q] {
                        let j = choose|j: int| 0 <= j < i + 1 && css_selector_parses(#[trigger] sv[j])
                            && html_select_flags(html@, true, Seq::empty(), sv[j])[q];
                        assert(j < i);
                    }
                }
            }
            if !css_selector_parses(sv[i as int]) {
                if exists|j: int| 0 <= j < i + 1 && css_selector_parses(#[trigger] sv[j]) {
                    let j = choose|j: int| 0 <= j < i + 1 && css_selector_parses(#[trigger] sv[j]);
                    assert(j < i);
                }
            }
        }
        i = i + 1;
    }
    if !any {
        return None;
    }
    assert(flags@ =~= want);
    let ids = collect_flagged(&flags);
    detach_all(&mut d, &ids);
    assert(Seq::<usize>::empty() + ids@ =~= ids@);
    Some(d)
}

/// The number of arena nodes of a parsed tree.
fn d_node_count(d: &ParsedHtml) -> (r: usize)
    ensures
        r == d.node_count(),
        r == html_node_kinds(d.source_text(), d.is_fragment()).len(),
{
    let m = load_model(d);
    m.kinds.len()
}

/// The first node that the first of `sels` (from `i` on) that parses and
/// selects something selects.
pub open spec fn user_root(src: Seq<char>, frag: bool, removed: Seq<usize>, sels: Seq<Seq<char>>, i: int) -> Option<usize>
    decreases sels.len() - i,
{
    if i < 0 || i >= sels.len() {
        None
    } else if css_selector_parses(sels[i]) && first_flagged(
        html_select_flags(src, frag, removed, sels[i]),
        html_select_flags(src, frag, removed, sels[i]).len() as int) >= 0 {
        Some(first_flagged(
            html_select_flags(src, frag, removed, sels[i]),
            html_select_flags(src, frag, removed, sels[i]).len() as int) as usize)
    } else {
        user_root(src, frag, removed, sels, i + 1)
    }
}

/// The only selected element named `name`, if there is exactly one.
pub open spec fn single_named(kinds: Seq<NodeKindView>, ch: Seq<Seq<usize>>, name: Seq<char>) -> Option<usize> {
    let a = all_named(kinds, ch, name, kinds.len() as int);
    if a.len() == 1 { Some(a[0]) } else { None }
}

/// The position of the first element among `kids`, or -1.
pub open spec fn first_element_in(kinds: Seq<NodeKindView>, kids: Seq<usize>, j: int) -> int
    decreases kids.len() - j,
{
    if j < 0 || j >= kids.len() {
        -1
    } else if 0 <= kids[j] < kinds.len() && kinds[kids[j] as int] is Element {
        j
    } else {
        first_element_in(kinds, kids, j + 1)
    }
}

/// The first element child of the root element (the first element child of
/// the tree's root, arena node 0).
pub open spec fn fallback_root(kinds: Seq<NodeKindView>, ch: Seq<Seq<usize>>) -> Option<usize> {
    if kinds.len() == 0 || ch.len() == 0 {
        None
    } else {
        let a = first_element_in(kinds, ch[0], 0);
        if a < 0 {
            None
        } else {
            let re = ch[0][a] as int;
            let b = first_element_in(kinds, ch[re], 0);
            if b < 0 { None } else { Some(ch[re][b]) }
        }
    }
}

/// The content root: the first match of the caller's selectors, else the
/// only `main`, else the only `article`, else the only `body`, else the
/// first element child of the root element.
pub open spec fn spec_content_root(src: Seq<char>, frag: bool, removed: Seq<usize>, sels: Option<Seq<Seq<char>>>) -> Option<usize> {
    let kinds = html_node_kinds(src, frag);
    let ch = html_node_children(src, frag, removed);
    let u = match sels { None => None, Some(s) => user_root(src, frag, removed, s, 0) };
    if u is Some {
        u
    } else if single_named(kinds, ch, "main"@) is Some {
        single_named(kinds, ch, "main"@)
    } else if single_named(kinds, ch, "article"@) is Some {
        single_named(kinds, ch, "article"@)
    } else if single_named(kinds, ch, "body"@) is Some {
        single_named(kinds, ch, "body"@)
    } else {
        fallback_root(kinds, ch)
    }
}

/// Node `k` is the one and only selected element named `name`.
pub open spec fn only_named(kinds: Seq<NodeKindView>, ch: Seq<Seq<usize>>, name: Seq<char>, k: int) -> bool {
    &&& crate::dom::selected_named(kinds, ch, k, name)
    &&& forall|j: int| crate::dom::selected_named(kinds, ch, j, name) ==> j == k
}

proof fn lemma_all_named_only(kinds: Seq<NodeKindView>, ch: Seq<Seq<usize>>, name: Seq<char>, n: int, k: int)
    requires
        only_named(kinds, ch, name, k),
    ensures
        all_named(kinds, ch, name, n) == if k < n { seq![k as usize] } else { Seq::<usize>::empty() },
    decreases n,
{
    if n > 0 {
        lemma_all_named_only(kinds, ch, name, n - 1, k);
        if n - 1 == k {
            assert(Seq::<usize>::empty().push(k as usize) == seq![k as usize]);
        } else {
            assert(!crate::dom::selected_named(kinds, ch, n - 1, name));
        }
    }
}

proof fn lemma_all_named_members(kinds: Seq<NodeKindView>, ch: Seq<Seq<usize>>, name: Seq<char>, n: int, i: int)
    requires
        0 <= i < all_named(kinds, ch, name, n).len(),
    ensures
        crate::dom::selected_named(kinds, ch, all_named(kinds, ch, name, n)[i] as int, name),
        (all_named(kinds, ch, name, n)[i] as int) < n,
    decreases n,
{
    if n > 0 {
        let prev = all_named(kinds, ch, name, n - 1);
        if i < prev.len() {
            if crate::dom::selected_named(kinds, ch, n - 1, name) {
                assert(all_named(kinds, ch, name, n)[i] == prev[i]);
            }
            lemma_all_named_members(kinds, ch, name, n - 1, i);
        }
    }
}

proof fn lemma_all_named_complete(kinds: Seq<NodeKindView>, ch: Seq<Seq<usize>>, name: Seq<char>, n: int, j: int)
    requires
        0 <= j < n,
        crate::dom::selected_named(kinds, ch, j, name),
    ensures
        all_named(kinds, ch, name, n).contains(j as usize),
    decreases n,
{
    let a = all_named(kinds, ch, name, n);
    if j == n - 1 {
        assert(a[a.len() - 1] == j as usize);
    } else {
        lemma_all_named_complete(kinds, ch, name, n - 1, j);
        let prev = all_named(kinds, ch, name, n - 1);
        let q = choose|q: int| 0 <= q < prev.len() && prev[q] == j as usize;
        if crate::dom::selected_named(kinds, ch, n - 1, name) {
            assert(a[q] == prev[q]);
        }
    }
}

/// `single_named` finds exactly the only selected element of that name.
proof fn lemma_single_named(kinds: Seq<NodeKindView>, ch: Seq<Seq<usize>>, name: Seq<char>)
    ensures
        (exists|k: int| only_named(kinds, ch, name, k)) <==> single_named(kinds, ch, name) is Some,
        forall|k: int| only_named(kinds, ch, name, k) ==> single_named(kinds, ch, name) == Some(k as usize),
{
    let n = kinds.len() as int;
    let a = all_named(kinds, ch, name, n);
    assert forall|k: int| only_named(kinds, ch, name, k) implies single_named(kinds, ch, name) == Some(k as usize) by {
        lemma_all_named_only(kinds, ch, name, n, k);
    }
    if a.len() == 1 {
        lemma_all_named_members(kinds, ch, name, n, 0);
        let k = a[0] as int;
        assert forall|j: int| crate::dom::selected_named(kinds, ch, j, name) implies j == k by {
            lemma_all_named_complete(kinds, ch, name, n, j);
            let q = choose|q: int| 0 <= q < a.len() && a[q] == j as usize;
        }
        assert(only_named(kinds, ch, name, k));
    }
}

/// How the content root is chosen: the first match of the caller's
/// selectors wins; failing that, the only `<main>` when there is exactly
/// one (whatever `<article>` or `<body>` elements there are), else the
/// only `<article>`, else the only `<body>`.
pub proof fn lemma_content_root_order(src: Seq<char>, frag: bool, removed: Seq<usize>, sels: Option<Seq<Seq<char>>>)
    ensures
        ({
            let kinds = html_node_kinds(src, frag);
            let ch = html_node_children(src, frag, removed);
            let user = match sels { None => None, Some(s) => user_root(src, frag, removed, s, 0) };
            let r = spec_content_root(src, frag, removed, sels);
            &&& user is Some ==> r == user
            &&& forall|k: int| user is None && only_named(kinds, ch, "main"@, k) ==> r == Some(k as usize)
            &&& forall|k: int| user is None && !(exists|m: int| only_named(kinds, ch, "main"@, m))
                    && only_named(kinds, ch, "article"@, k) ==> r == Some(k as usize)
            &&& forall|k: int| user is None && !(exists|m: int| only_named(kinds, ch, "main"@, m))
                    && !(exists|m: int| only_named(kinds, ch, "article"@, m))
                    && only_named(kinds, ch, "body"@, k) ==> r == Some(k as usize)
        }),
{
    let kinds = html_node_kinds(src, frag);
    let ch = html_node_children(src, frag, removed);
    lemma_single_named(kinds, ch, "main"@);
    lemma_single_named(kinds, ch, "article"@);
    lemma_single_named(kinds, ch, "body"@);
}

fn first_element_exec(m: &crate::dom::DocModel, kids: &Vec<usize>) -> (r: Option<usize>)
    requires
        m.wf(),
        forall|t: int| 0 <= t < kids@.len() ==> #[trigger] kids@[t] < m.kinds@.len(),
    ensures
        match r {
            Some(j) => j < kids@.len() && first_element_in(m.kinds_v(), kids@, 0) == j,
            None => first_element_in(m.kinds_v(), kids@, 0) == -1,
        },
{
    let mut j: usize = 0;
    while j < kids.len()
        invariant
            m.wf(),
            j <= kids@.len(),
            forall|t: int| 0 <= t < kids@.len() ==> #[trigger] kids@[t] < m.kinds@.len(),
            first_element_in(m.kinds_v(), kids@, 0) == first_element_in(m.kinds_v(), kids@, j as int),
        decreases kids@.len() - j,
    {
        let c = kids[j];
        assert(m.kinds_v()[c as int] == m.kinds@[c as int]@);
        match &m.kinds[c] {
            NodeKind::Element { .. } => { return Some(j); },
            _ => {},
        }
        j = j + 1;
    }
    None
}

fn single_named_exec(m: &crate::dom::DocModel, parents: &Vec<bool>, name: &str) -> (r: Option<usize>)
    requires
        m.wf(),
        parents@.len() == m.kinds@.len(),
        forall|t: int| 0 <= t < parents@.len() ==> parents@[t] == has_parent(m.children_v(), t),
    ensures
        r == single_named(m.kinds_v(), m.children_v(), name@),
{
    let a = all_named_exec(m, parents, name);
    if a.len() == 1 { Some(a[0]) } else { None }
}

/// Narrows the document to a single content root element (see
/// `spec_content_root`), given by its arena index.
pub fn select_content_root(document: &ParsedHtml, content_selectors: Option<&Vec<String>>) -> (r: Option<usize>)
    ensures
        r == spec_content_root(document.source_text(), document.is_fragment(), document.removed_nodes(), match content_selectors { None => None, Some(s) => Some(strings_view(s@)) }),
{
    let ghost sels = match content_selectors { None => None, Some(s) => Some(strings_view(s@)) };
    let m = load_model(document);
    let mut found: Option<usize> = None;
    match content_selectors {
        None => {},
        Some(sv) => {
            let ghost svv = strings_view(sv@);
            let mut i: usize = 0;
            while i < sv.len()
                invariant
                    i <= sv@.len(),
                    svv == strings_view(sv@),
                    content_selectors == Some(sv),
                    found is None,
                    user_root(document.source_text(), document.is_fragment(), document.removed_nodes(), svv, 0)
                        == user_root(document.source_text(), document.is_fragment(), document.removed_nodes(), svv, i as int),
                decreases sv@.len() - i,
            {
                assert(svv[i as int] == sv@[i as int]@);
                match select_flags(document, sv[i].as_str()) {
                    None => {},
                    Some(f) => {
                        let mut k: usize = 0;
                        while k < f.len() && !f[k]
                            invariant
                                k <= f@.len(),
                                first_flagged(f@, k as int) == -1,
                            decreases f@.len() - k,
                        {
                            k = k + 1;
                        }
                        if k < f.len() {
                            proof {
                                crate::convert::parser::lemma_first_flagged_stable(f@, k + 1, f@.len() as int);
                            }
                            return Some(k);
                        }
                    },
                }
                i = i + 1;
            }
        },
    }
    let parents = parent_flags(&m);
    let main = single_named_exec(&m, &parents, "main");
    if main.is_some() {
        return main;
    }
    let article = single_named_exec(&m, &parents, "article");
    if article.is_some() {
        return article;
    }
    let body = single_named_exec(&m, &parents, "body");
    if body.is_some() {
        return body;
    }
    if m.kinds.len() == 0 {
        return None;
    }
    let kids0 = &m.children[0];
    assert(m.children_v()[0] == kids0@);
    assert(forall|t: int| 0 <= t < kids0@.len() ==> #[trigger] kids0@[t] < m.kinds@.len()) by {
        assert forall|t: int| 0 <= t < kids0@.len() implies #[trigger] kids0@[t] < m.kinds@.len() by {
            assert(m.children_v()[0][t] == kids0@[t]);
        }
    }
    match first_element_exec(&m, kids0) {
        None => None,
        Some(a) => {
            let re = kids0[a];
            let kids1 = &m.children[re];
            assert(m.children_v()[re as int] == kids1@);
            assert(forall|t: int| 0 <= t < kids1@.len() ==> #[trigger] kids1@[t] < m.kinds@.len()) by {
                assert forall|t: int| 0 <= t < kids1@.len() implies #[trigger] kids1@[t] < m.kinds@.len() by {
                    assert(m.children_v()[re as int][t] == kids1@[t]);
                }
            }
            match first_element_exec(&m, kids1) {
                None => None,
                Some(b) => Some(kids1[b]),
            }
        },
    }
}

} // verus!
