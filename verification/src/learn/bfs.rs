//! Breadth-first search over element paths shared by the pages, collecting
//! boilerplate snippet candidates.

use vstd::prelude::*;
use crate::dom::{has_parent, load_model, parent_flags, DocModel};
use crate::html::{
    html_node_children, html_node_kinds, html_outer_html, outer_html, parse_document, NodeKind,
    NodeKindView, ParsedHtml,
};
use crate::learn::collect::{is_skipped_name, node_text, node_text_exec, should_skip_element};
use crate::learn::fingerprint::{normalized_text_fingerprint, spec_fingerprint};
use crate::learn::selectors::{selector_candidates, spec_selector_candidates};
use crate::learn::snippets::{
    is_boilerplate_text_candidate, samples_view, shared_fingerprint_for_samples,
    shared_selectors_for_samples, spec_is_boilerplate_text, spec_shared_fingerprint,
    spec_shared_selectors, PathNodeSample, SampleView, SnippetLimits,
};
use crate::learn::types::{SnippetCandidate, strings_view};
use crate::text::{byte_len, string_from_chars, utf8_len};

verus! {

/// The first element named `body` that has a parent, in arena order
/// (what selecting `body` yields first).
pub open spec fn body_from(kinds: Seq<NodeKindView>, ch: Seq<Seq<usize>>, start: int) -> Option<int>
    decreases kinds.len() - start,
{
    if start < 0 || start >= kinds.len() {
        None
    } else if has_parent(ch, start) && (kinds[start] matches NodeKindView::Element { name, .. } && name == "body"@) {
        Some(start)
    } else {
        body_from(kinds, ch, start + 1)
    }
}

/// The element children of a node that are not skipped, in order.
pub open spec fn elem_kids(kinds: Seq<NodeKindView>, kids: Seq<usize>) -> Seq<usize>
    decreases kids.len(),
{
    if kids.len() == 0 {
        Seq::empty()
    } else {
        let prev = elem_kids(kinds, kids.drop_last());
        let c = kids.last();
        if 0 <= c < kinds.len() && (kinds[c as int] matches NodeKindView::Element { name, .. } && !is_skipped_name(name)) {
            prev.push(c)
        } else {
            prev
        }
    }
}

/// The node reached from `root` by following `path` through element
/// children.
pub open spec fn resolve(kinds: Seq<NodeKindView>, ch: Seq<Seq<usize>>, root: int, path: Seq<usize>) -> Option<int>
    decreases path.len(),
{
    if path.len() == 0 {
        Some(root)
    } else {
        match resolve(kinds, ch, root, path.drop_last()) {
            Some(c) => {
                let ek = if 0 <= c < ch.len() { elem_kids(kinds, ch[c]) } else { Seq::empty() };
                if path.last() < ek.len() { Some(ek[path.last() as int] as int) } else { None }
            },
            None => None,
        }
    }
}

pub open spec fn page_kinds(html: Seq<char>) -> Seq<NodeKindView> {
    html_node_kinds(html, false)
}

pub open spec fn page_children(html: Seq<char>) -> Seq<Seq<usize>> {
    html_node_children(html, false, Seq::empty())
}

/// The node of page `html` at `path`, if the page has one there.
pub open spec fn page_node(html: Seq<char>, path: Seq<usize>) -> Option<int> {
    let kinds = page_kinds(html);
    let ch = page_children(html);
    match body_from(kinds, ch, 0) {
        Some(r) => resolve(kinds, ch, r, path),
        None => None,
    }
}

pub open spec fn node_attrs(k: NodeKindView) -> Seq<crate::html::AttrView> {
    match k {
        NodeKindView::Element { attrs, .. } => attrs,
        _ => Seq::empty(),
    }
}

/// The sample of node `k` of page `page`.
pub open spec fn sample_of(html: Seq<char>, page: usize, k: int) -> SampleView {
    let kinds = page_kinds(html);
    let ch = page_children(html);
    let text = node_text(kinds, ch, k);
    SampleView {
        page: page,
        text: text,
        fp: spec_fingerprint(text),
        snippet: html_outer_html(html, false, Seq::empty(), k as usize),
        sels: spec_selector_candidates(node_attrs(kinds[k])),
    }
}

/// The samples at `path` of the first `n` pages.
pub open spec fn path_samples(pages: Seq<Seq<char>>, path: Seq<usize>, n: int) -> Seq<SampleView>
    decreases n,
{
    if n <= 0 {
        Seq::empty()
    } else {
        let prev = path_samples(pages, path, n - 1);
        match page_node(pages[n - 1], path) {
            Some(k) => prev.push(sample_of(pages[n - 1], (n - 1) as usize, k)),
            None => prev,
        }
    }
}

/// The number of element children at `path` of each of the first `n`
/// pages that have a node there.
pub open spec fn child_counts(pages: Seq<Seq<char>>, path: Seq<usize>, n: int) -> Seq<nat>
    decreases n,
{
    if n <= 0 {
        Seq::empty()
    } else {
        let prev = child_counts(pages, path, n - 1);
        match page_node(pages[n - 1], path) {
            Some(k) => prev.push(elem_kids(page_kinds(pages[n - 1]), page_children(pages[n - 1])[k]).len()),
            None => prev,
        }
    }
}

/// How many counts exceed `ci`.
pub open spec fn pages_with_child(ccs: Seq<nat>, ci: nat) -> nat
    decreases ccs.len(),
{
    if ccs.len() == 0 {
        0
    } else {
        pages_with_child(ccs.drop_last(), ci) + if ccs.last() > ci { 1nat } else { 0nat }
    }
}

pub open spec fn max_nat(ccs: Seq<nat>) -> nat
    decreases ccs.len(),
{
    if ccs.len() == 0 {
        0
    } else {
        let m = max_nat(ccs.drop_last());
        if ccs.last() > m { ccs.last() } else { m }
    }
}

/// The child indices below `n` held by at least `min` of the pages, in
/// increasing order.
pub open spec fn shared_child_indices(ccs: Seq<nat>, min: nat, n: nat) -> Seq<usize>
    decreases n,
{
    if n == 0 {
        Seq::empty()
    } else {
        let prev = shared_child_indices(ccs, min, (n - 1) as nat);
        if pages_with_child(ccs, (n - 1) as nat) >= min { prev.push((n - 1) as usize) } else { prev }
    }
}

/// The index of the sample with the longest text (the last one among
/// equally long).
pub open spec fn longest_text_index(samples: Seq<SampleView>) -> int
    decreases samples.len(),
{
    if samples.len() <= 1 {
        0
    } else {
        let prev = longest_text_index(samples.drop_last());
        if utf8_len(samples.last().text) >= utf8_len(samples[prev].text) { samples.len() - 1 } else { prev }
    }
}

/// What a candidate holds: pages recorded, selectors recorded with their
/// page, longest snippet.
pub struct CandView {
    pub pages: Seq<usize>,
    pub sels: Seq<(Seq<char>, usize)>,
    pub snippet: Seq<char>,
}

pub open spec fn cand_view(c: SnippetCandidate) -> CandView {
    CandView { pages: c.pages_view(), sels: c.selectors_view(), snippet: c.snippet_view() }
}

pub open spec fn cands_view(v: Seq<(String, SnippetCandidate)>) -> Seq<(Seq<char>, CandView)> {
    v.map_values(|e: (String, SnippetCandidate)| (e.0@, cand_view(e.1)))
}

pub open spec fn cand_record(c: CandView, s: SampleView) -> CandView {
    CandView {
        pages: c.pages.push(s.page),
        sels: c.sels + s.sels.map_values(|x: Seq<char>| (x, s.page)),
        snippet: if utf8_len(s.snippet) > utf8_len(c.snippet) { s.snippet } else { c.snippet },
    }
}

pub open spec fn cand_record_all(c: CandView, samples: Seq<SampleView>) -> CandView
    decreases samples.len(),
{
    if samples.len() == 0 {
        c
    } else {
        cand_record(cand_record_all(c, samples.drop_last()), samples.last())
    }
}

pub open spec fn empty_cand() -> CandView {
    CandView { pages: Seq::empty(), sels: Seq::empty(), snippet: Seq::empty() }
}

/// Index of the candidate with key `fp`, or the length.
pub open spec fn cand_index(cands: Seq<(Seq<char>, CandView)>, fp: Seq<char>, start: int) -> int
    decreases cands.len() - start,
{
    if start < 0 || start >= cands.len() {
        cands.len() as int
    } else if cands[start].0 == fp {
        start
    } else {
        cand_index(cands, fp, start + 1)
    }
}

/// All samples recorded on the candidate keyed `fp` (created if missing).
pub open spec fn record_samples(cands: Seq<(Seq<char>, CandView)>, fp: Seq<char>, samples: Seq<SampleView>)
    -> Seq<(Seq<char>, CandView)>
{
    let i = cand_index(cands, fp, 0);
    if i < cands.len() {
        cands.update(i, (fp, cand_record_all(cands[i].1, samples)))
    } else {
        cands.push((fp, cand_record_all(empty_cand(), samples)))
    }
}

/// Everything the search reads besides the pages.
pub struct BfsParams {
    pub min: nat,
    pub patterns: Seq<Seq<char>>,
    pub min_len: nat,
    pub max_len: nat,
}

pub struct BfsState {
    pub queue: Seq<Seq<usize>>,
    pub head: nat,
    pub cands: Seq<(Seq<char>, CandView)>,
}

/// One step of the search: take the next path, record its samples as a
/// candidate when they share a fingerprint and hold boilerplate text, else
/// queue the child paths held by enough pages when the path is the root or
/// matches nothing.
pub open spec fn bfs_step(pages: Seq<Seq<char>>, prm: BfsParams, st: BfsState) -> BfsState {
    let path = st.queue[st.head as int];
    let samples = path_samples(pages, path, pages.len() as int);
    let sfp = spec_shared_fingerprint(samples, prm.min);
    let is_match = spec_shared_selectors(samples).len() > 0 || sfp is Some;
    let next = BfsState { queue: st.queue, head: st.head + 1, cands: st.cands };
    if sfp is Some && path.len() > 0 && samples.len() > 0
        && spec_is_boilerplate_text(samples[longest_text_index(samples)].text, prm.patterns, prm.min_len, prm.max_len) {
        BfsState { cands: record_samples(st.cands, sfp->0, samples), ..next }
    } else if path.len() == 0 || !is_match {
        let ccs = child_counts(pages, path, pages.len() as int);
        let kids = shared_child_indices(ccs, prm.min, max_nat(ccs));
        BfsState { queue: st.queue + kids.map_values(|ci: usize| path.push(ci)), ..next }
    } else {
        next
    }
}

/// The search run for at most `fuel` steps.
pub open spec fn bfs_run(pages: Seq<Seq<char>>, prm: BfsParams, st: BfsState, fuel: nat) -> BfsState
    decreases fuel,
{
    if fuel == 0 || st.head >= st.queue.len() {
        st
    } else {
        bfs_run(pages, prm, bfs_step(pages, prm, st), (fuel - 1) as nat)
    }
}

} // verus!

verus! {

/// A page parsed as a document, with its model and its `body` element.
pub struct PageDoc {
    pub d: ParsedHtml,
    pub m: DocModel,
    pub root: Option<usize>,
}

pub open spec fn page_ok(pd: PageDoc, html: Seq<char>) -> bool {
    &&& pd.d.source_text() == html
    &&& !pd.d.is_fragment()
    &&& pd.d.removed_nodes() == Seq::<usize>::empty()
    &&& pd.m.wf()
    &&& pd.m.kinds_v() == page_kinds(html)
    &&& pd.m.children_v() == page_children(html)
    &&& pd.m.kinds@.len() == pd.d.node_count()
    &&& match body_from(page_kinds(html), page_children(html), 0) {
        Some(r) => pd.root == Some(r as usize),
        None => pd.root is None,
    }
}

pub fn load_page(html: &str) -> (r: PageDoc)
    ensures
        page_ok(r, html@),
{
    let d = parse_document(html);
    let m = load_model(&d);
    let parents = parent_flags(&m);
    let ghost kv = m.kinds_v();
    let ghost ch = m.children_v();
    let n = m.kinds.len();
    let mut k: usize = 0;
    let mut root: Option<usize> = None;
    while k < n
        invariant_except_break
            root is None,
        invariant
            k <= n,
            n == m.kinds@.len(),
            m.wf(),
            kv == m.kinds_v(),
            ch == m.children_v(),
            parents@.len() == n,
            forall|t: int| 0 <= t < n ==> parents@[t] == has_parent(ch, t),
            body_from(kv, ch, 0) == body_from(kv, ch, k as int),
            kv.len() == n,
        ensures
            match body_from(kv, ch, 0) {
                Some(r) => root == Some(r as usize),
                None => root is None,
            },
        decreases n - k,
    {
        assert(kv[k as int] == m.kinds@[k as int]@);
        let hit = match &m.kinds[k] {
            NodeKind::Element { name, .. } => parents[k] && crate::text::str_eq(name.as_str(), "body"),
            _ => false,
        };
        if hit {
            root = Some(k);
            assert(body_from(kv, ch, k as int) == Some(k as int));
            break;
        }
        assert(body_from(kv, ch, k as int) == body_from(kv, ch, k + 1));
        k = k + 1;
    }
    PageDoc { d, m, root }
}

/// The element children of node `k` that are not skipped.
pub fn elem_kids_exec(m: &DocModel, k: usize) -> (r: Vec<usize>)
    requires
        m.wf(),
        k < m.kinds@.len(),
    ensures
        r@ == elem_kids(m.kinds_v(), m.children_v()[k as int]),
        forall|i: int| 0 <= i < r@.len() ==> #[trigger] r@[i] < m.kinds@.len(),
{
    let kids = &m.children[k];
    let ghost kv = m.kinds_v();
    assert(m.children_v()[k as int] == kids@);
    let mut out: Vec<usize> = Vec::new();
    let mut j: usize = 0;
    while j < kids.len()
        invariant
            j <= kids@.len(),
            m.wf(),
            kv == m.kinds_v(),
            m.children_v()[k as int] == kids@,
            k < m.kinds@.len(),
            out@ == elem_kids(kv, kids@.take(j as int)),
            forall|i: int| 0 <= i < out@.len() ==> #[trigger] out@[i] < m.kinds@.len(),
        decreases kids@.len() - j,
    {
        assert(kids@.take(j + 1).drop_last() == kids@.take(j as int));
        assert(kids@.take(j + 1).last() == kids@[j as int]);
        let c = kids[j];
        assert(m.children_v()[k as int][j as int] < m.children_v().len());
        assert(kv[c as int] == m.kinds@[c as int]@);
        let keep = match &m.kinds[c] {
            NodeKind::Element { name, .. } => !should_skip_element(name.as_str()),
            _ => false,
        };
        if keep {
            out.push(c);
        }
        j = j + 1;
    }
    assert(kids@.take(j as int) == kids@);
    out
}

/// The node at `path` from `root`.
pub fn resolve_exec(m: &DocModel, root: usize, path: &Vec<usize>) -> (r: Option<usize>)
    requires
        m.wf(),
        root < m.kinds@.len(),
    ensures
        match resolve(m.kinds_v(), m.children_v(), root as int, path@) {
            Some(k) => r == Some(k as usize) && 0 <= k < m.kinds@.len(),
            None => r is None,
        },
{
    let mut cur = root;
    let mut i: usize = 0;
    while i < path.len()
        invariant
            i <= path@.len(),
            m.wf(),
            root < m.kinds@.len(),
            cur < m.kinds@.len(),
            resolve(m.kinds_v(), m.children_v(), root as int, path@.take(i as int)) == Some(cur as int),
        decreases path@.len() - i,
    {
        assert(path@.take(i + 1).drop_last() == path@.take(i as int));
        assert(path@.take(i + 1).last() == path@[i as int]);
        let ek = elem_kids_exec(m, cur);
        if path[i] < ek.len() {
            cur = ek[path[i]];
        } else {
            proof {
                lemma_resolve_none_extends(m.kinds_v(), m.children_v(), root as int, path@, i as int + 1);
            }
            return None;
        }
        i = i + 1;
    }
    assert(path@.take(i as int) == path@);
    Some(cur)
}

pub proof fn lemma_resolve_none_extends(kinds: Seq<NodeKindView>, ch: Seq<Seq<usize>>, root: int, path: Seq<usize>, n: int)
    requires
        0 <= n <= path.len(),
        resolve(kinds, ch, root, path.take(n)) is None,
    ensures
        resolve(kinds, ch, root, path) is None,
    decreases path.len() - n,
{
    if n < path.len() {
        assert(path.take(n + 1).drop_last() == path.take(n));
        lemma_resolve_none_extends(kinds, ch, root, path, n + 1);
    } else {
        assert(path.take(n) == path);
    }
}

/// The node of a page at `path`.
pub fn page_node_exec(pd: &PageDoc, path: &Vec<usize>, Ghost(html): Ghost<Seq<char>>) -> (r: Option<usize>)
    requires
        page_ok(*pd, html),
    ensures
        match page_node(html, path@) {
            Some(k) => r == Some(k as usize) && 0 <= k < pd.m.kinds@.len(),
            None => r is None,
        },
        r matches Some(k) ==> page_node(html, path@) == Some(k as int) && k < pd.m.kinds@.len(),
{
    assert(pd.m.kinds@.len() == pd.m.kinds.len());
    proof {
        lemma_body_from_in_range(page_kinds(html), page_children(html), 0);
    }
    match pd.root {
        Some(root) => {
            let ghost r = body_from(page_kinds(html), page_children(html), 0).unwrap();
            assert(page_kinds(html).len() == pd.m.kinds_v().len());
            assert(pd.m.kinds_v().len() == pd.m.kinds@.len());
            assert(pd.m.kinds@.len() == pd.m.kinds.len());
            assert(0 <= r < pd.m.kinds.len());
            assert(root as int == r);
            let res = resolve_exec(&pd.m, root, path);
            assert(page_node(html, path@) == resolve(pd.m.kinds_v(), pd.m.children_v(), root as int, path@));
            res
        },
        None => None,
    }
}

pub proof fn lemma_body_from_in_range(kinds: Seq<NodeKindView>, ch: Seq<Seq<usize>>, start: int)
    ensures
        body_from(kinds, ch, start) matches Some(r) ==> 0 <= r < kinds.len(),
    decreases kinds.len() - start,
{
    if 0 <= start < kinds.len() {
        lemma_body_from_in_range(kinds, ch, start + 1);
    }
}

} // verus!

verus! {

pub open spec fn pages_ok(pds: Seq<PageDoc>, htmls: Seq<Seq<char>>) -> bool {
    pds.len() == htmls.len() && forall|i: int| 0 <= i < pds.len() ==> page_ok(#[trigger] pds[i], htmls[i])
}

/// The samples of all pages at `path`.
pub fn path_samples_exec(pds: &Vec<PageDoc>, path: &Vec<usize>, Ghost(htmls): Ghost<Seq<Seq<char>>>)
    -> (r: Vec<PathNodeSample>)
    requires
        pages_ok(pds@, htmls),
    ensures
        samples_view(r@) == path_samples(htmls, path@, htmls.len() as int),
{
    let mut out: Vec<PathNodeSample> = Vec::new();
    let mut p: usize = 0;
    while p < pds.len()
        invariant
            p <= pds@.len(),
            pages_ok(pds@, htmls),
            samples_view(out@) == path_samples(htmls, path@, p as int),
        decreases pds@.len() - p,
    {
        let pd = &pds[p];
        assert(page_ok(pds@[p as int], htmls[p as int]));
        match page_node_exec(pd, path, Ghost(htmls[p as int])) {
            Some(k) => {
                assert(page_node(htmls[p as int], path@) == Some(k as int));
                let text = node_text_exec(&pd.m, k);
                let text_s = string_from_chars(text.as_slice());
                let fp = normalized_text_fingerprint(text_s.as_str());
                let snippet = outer_html(&pd.d, k);
                assert(pd.m.kinds_v()[k as int] == pd.m.kinds@[k as int]@);
                let selectors = match &pd.m.kinds[k] {
                    NodeKind::Element { attrs, .. } => selector_candidates(attrs),
                    _ => {
                        let empty: Vec<crate::html::Attr> = Vec::new();
                        assert(crate::html::attrs_view(empty@) =~= Seq::<crate::html::AttrView>::empty());
                        selector_candidates(&empty)
                    },
                };
                let ghost before = samples_view(out@);
                let smp = PathNodeSample { page_index: p, text: text_s, fingerprint: fp, snippet, selectors };
                assert(smp@.text == sample_of(htmls[p as int], p, k as int).text);
                assert(smp@.fp == sample_of(htmls[p as int], p, k as int).fp);
                assert(smp@.snippet == sample_of(htmls[p as int], p, k as int).snippet);
                assert(smp@.sels == sample_of(htmls[p as int], p, k as int).sels);
                assert(smp@ == sample_of(htmls[p as int], p, k as int));
                out.push(smp);
                assert(samples_view(out@) =~= before.push(sample_of(htmls[p as int], p, k as int)));
                assert(path_samples(htmls, path@, p + 1) == path_samples(htmls, path@, p as int).push(sample_of(htmls[p as int], p, k as int)));
            },
            None => {
                assert(path_samples(htmls, path@, p + 1) == path_samples(htmls, path@, p as int));
            },
        }
        p = p + 1;
    }
    out
}

/// Element-child counts at `path` of the pages that have a node there.
pub fn child_counts_exec(pds: &Vec<PageDoc>, path: &Vec<usize>, Ghost(htmls): Ghost<Seq<Seq<char>>>)
    -> (r: Vec<usize>)
    requires
        pages_ok(pds@, htmls),
    ensures
        r@.map_values(|c: usize| c as nat) == child_counts(htmls, path@, htmls.len() as int),
{
    let mut out: Vec<usize> = Vec::new();
    let mut p: usize = 0;
    while p < pds.len()
        invariant
            p <= pds@.len(),
            pages_ok(pds@, htmls),
            out@.map_values(|c: usize| c as nat) == child_counts(htmls, path@, p as int),
        decreases pds@.len() - p,
    {
        let pd = &pds[p];
        assert(page_ok(pds@[p as int], htmls[p as int]));
        match page_node_exec(pd, path, Ghost(htmls[p as int])) {
            Some(k) => {
                assert(page_node(htmls[p as int], path@) == Some(k as int));
                let ek = elem_kids_exec(&pd.m, k);
                let ghost before = out@.map_values(|c: usize| c as nat);
                out.push(ek.len());
                assert(out@.map_values(|c: usize| c as nat) =~= before.push(ek@.len()));
                assert(pd.m.children_v()[k as int] == page_children(htmls[p as int])[k as int]);
                assert(child_counts(htmls, path@, p + 1) == child_counts(htmls, path@, p as int).push(ek@.len()));
            },
            None => {
                assert(child_counts(htmls, path@, p + 1) == child_counts(htmls, path@, p as int));
            },
        }
        p = p + 1;
    }
    out
}

/// The child indices held by at least `min` pages.
pub fn shared_child_indices_exec(ccs: &Vec<usize>, min: usize) -> (r: Vec<usize>)
    ensures
        r@ == shared_child_indices(ccs@.map_values(|c: usize| c as nat), min as nat,
            max_nat(ccs@.map_values(|c: usize| c as nat))),
{
    let ghost cv = ccs@.map_values(|c: usize| c as nat);
    let mut mx: usize = 0;
    let mut i: usize = 0;
    while i < ccs.len()
        invariant
            i <= ccs@.len(),
            cv == ccs@.map_values(|c: usize| c as nat),
            mx == max_nat(cv.take(i as int)),
        decreases ccs@.len() - i,
    {
        assert(cv.take(i + 1).drop_last() == cv.take(i as int));
        if ccs[i] > mx {
            mx = ccs[i];
        }
        i = i + 1;
    }
    assert(cv.take(i as int) == cv);
    let mut out: Vec<usize> = Vec::new();
    let mut ci: usize = 0;
    while ci < mx
        invariant
            ci <= mx,
            cv == ccs@.map_values(|c: usize| c as nat),
            out@ == shared_child_indices(cv, min as nat, ci as nat),
        decreases mx - ci,
    {
        let mut cnt: usize = 0;
        let mut j: usize = 0;
        while j < ccs.len()
            invariant
                j <= ccs@.len(),
                cv == ccs@.map_values(|c: usize| c as nat),
                cnt == pages_with_child(cv.take(j as int), ci as nat),
                cnt <= j,
            decreases ccs@.len() - j,
        {
            assert(cv.take(j + 1).drop_last() == cv.take(j as int));
            if ccs[j] > ci {
                cnt = cnt + 1;
            }
            j = j + 1;
        }
        assert(cv.take(j as int) == cv);
        if cnt >= min {
            out.push(ci);
        }
        ci = ci + 1;
    }
    out
}

/// Index of the sample with the longest text (the last of equal length).
pub fn longest_text_index_exec(samples: &Vec<PathNodeSample>) -> (r: usize)
    requires
        samples@.len() > 0,
    ensures
        r == longest_text_index(samples_view(samples@)),
        r < samples@.len(),
{
    let ghost sv = samples_view(samples@);
    let mut best: usize = 0;
    let mut best_len = byte_len(samples[0].text.as_str());
    let mut i: usize = 1;
    assert(sv.take(1).len() == 1);
    while i < samples.len()
        invariant
            1 <= i <= samples@.len(),
            sv == samples_view(samples@),
            best < i,
            best == longest_text_index(sv.take(i as int)),
            best_len == utf8_len(sv[best as int].text),
        decreases samples@.len() - i,
    {
        assert(sv.take(i + 1).drop_last() == sv.take(i as int));
        assert(sv.take(i as int)[best as int] == sv[best as int]);
        assert(sv.take(i + 1)[best as int] == sv[best as int]);
        let l = byte_len(samples[i].text.as_str());
        if l >= best_len {
            best = i;
            best_len = l;
        }
        i = i + 1;
    }
    assert(sv.take(i as int) == sv);
    best
}

} // verus!

verus! {

fn record_all_samples(c: &mut SnippetCandidate, samples: &Vec<PathNodeSample>)
    ensures
        cand_view(*final(c)) == cand_record_all(cand_view(*old(c)), samples_view(samples@)),
{
    let ghost sv = samples_view(samples@);
    let mut i: usize = 0;
    while i < samples.len()
        invariant
            i <= samples@.len(),
            sv == samples_view(samples@),
            cand_view(*c) == cand_record_all(cand_view(*old(c)), sv.take(i as int)),
        decreases samples@.len() - i,
    {
        assert(sv.take(i + 1).drop_last() == sv.take(i as int));
        assert(sv.take(i + 1).last() == samples@[i as int]@);
        let s = &samples[i];
        c.record(s.page_index, s.snippet.clone(), &s.selectors);
        i = i + 1;
    }
    assert(sv.take(i as int) == sv);
}

/// Records all samples on the candidate keyed `fp`, creating it if needed.
pub fn record_samples_exec(cands: &mut Vec<(String, SnippetCandidate)>, fp: String, samples: &Vec<PathNodeSample>)
    ensures
        cands_view(final(cands)@) == record_samples(cands_view(old(cands)@), fp@, samples_view(samples@)),
{
    let ghost cv = cands_view(cands@);
    let mut i: usize = 0;
    while i < cands.len()
        invariant
            i <= cands@.len(),
            cv == cands_view(cands@),
            cand_index(cv, fp@, 0) == cand_index(cv, fp@, i as int),
        ensures
            i <= cands@.len(),
            cand_index(cv, fp@, 0) == i,
            i < cands@.len() ==> cv[i as int].0 == fp@,
        decreases cands@.len() - i,
    {
        if cands[i].0 == fp {
            assert(cv[i as int].0 == fp@);
            break;
        }
        assert(cv[i as int].0 != fp@);
        i = i + 1;
    }
    if i < cands.len() {
        let ghost before = cands@;
        record_all_samples(&mut cands[i].1, samples);
        proof {
            assert forall|t: int| 0 <= t < cands@.len() && t != i implies cands@[t] == before[t] by {}
            assert(cands@[i as int].0 == before[i as int].0);
            assert(cands_view(cands@) =~= cv.update(i as int, (fp@, cand_record_all(cv[i as int].1, samples_view(samples@)))));
        }
    } else {
        let mut c = SnippetCandidate::new();
        assert(cand_view(c) == empty_cand());
        record_all_samples(&mut c, samples);
        let ghost before = cands_view(cands@);
        cands.push((fp, c));
        assert(cands_view(cands@) =~= before.push((fp@, cand_record_all(empty_cand(), samples_view(samples@)))));
    }
}

} // verus!

verus! {

pub open spec fn paths_view(q: Seq<Vec<usize>>) -> Seq<Seq<usize>> {
    q.map_values(|p: Vec<usize>| p@)
}

pub open spec fn total_nodes(htmls: Seq<Seq<char>>, n: int) -> nat
    decreases n,
{
    if n <= 0 {
        0
    } else {
        total_nodes(htmls, n - 1) + page_kinds(htmls[n - 1]).len()
    }
}

/// Steps allowed to the search: one more than the number of nodes of all
/// pages (each explored path names a distinct node of some page, so the
/// search always ends before), capped at `usize::MAX`.
pub open spec fn bfs_fuel(htmls: Seq<Seq<char>>) -> nat {
    let t = total_nodes(htmls, htmls.len() as int) + 1;
    if t > usize::MAX { usize::MAX as nat } else { t }
}

pub open spec fn bfs_init() -> BfsState {
    BfsState { queue: seq![Seq::<usize>::empty()], head: 0, cands: Seq::empty() }
}

pub open spec fn bfs_params(patterns: Seq<Seq<char>>, min: usize, limits: SnippetLimits) -> BfsParams {
    BfsParams {
        min: min as nat,
        patterns: patterns,
        min_len: limits.min_snippet_text_length as nat,
        max_len: limits.max_snippet_text_length as nat,
    }
}

/// The snippet candidates of the pages, keyed by shared fingerprint.
pub open spec fn spec_snippet_candidates(htmls: Seq<Seq<char>>, prm: BfsParams) -> Seq<(Seq<char>, CandView)> {
    bfs_run(htmls, prm, bfs_init(), bfs_fuel(htmls)).cands
}

fn bfs_budget(pds: &Vec<PageDoc>, Ghost(htmls): Ghost<Seq<Seq<char>>>) -> (r: usize)
    requires
        pages_ok(pds@, htmls),
    ensures
        r == bfs_fuel(htmls),
{
    let mut t: usize = 1;
    let mut p: usize = 0;
    while p < pds.len()
        invariant
            p <= pds@.len(),
            pages_ok(pds@, htmls),
            t == (if total_nodes(htmls, p as int) + 1 > usize::MAX { usize::MAX as nat } else { total_nodes(htmls, p as int) + 1 }),
        decreases pds@.len() - p,
    {
        assert(page_ok(pds@[p as int], htmls[p as int]));
        assert(pds@[p as int].m.kinds_v().len() == pds@[p as int].m.kinds@.len());
        let n = pds[p].m.kinds.len();
        t = t.saturating_add(n);
        p = p + 1;
    }
    t
}

/// Breadth-first search from the `body` element over element-child paths
/// shared by enough pages, recording as snippet candidates the paths whose
/// samples share a fingerprint and hold boilerplate text.
pub fn collect_breadth_first_snippet_candidates(
    pages: &Vec<String>,
    min_shared_pages: usize,
    boilerplate_patterns: &Vec<String>,
    limits: &SnippetLimits,
) -> (r: Vec<(String, SnippetCandidate)>)
    ensures
        cands_view(r@) == spec_snippet_candidates(strings_view(pages@),
            bfs_params(strings_view(boilerplate_patterns@), min_shared_pages, *limits)),
{
    let ghost htmls = strings_view(pages@);
    let ghost prm = bfs_params(strings_view(boilerplate_patterns@), min_shared_pages, *limits);
    let mut pds: Vec<PageDoc> = Vec::new();
    let mut p: usize = 0;
    while p < pages.len()
        invariant
            p <= pages@.len(),
            htmls == strings_view(pages@),
            pages_ok(pds@, htmls.take(p as int)),
        decreases pages@.len() - p,
    {
        assert(htmls[p as int] == pages@[p as int]@);
        let pd = load_page(pages[p].as_str());
        pds.push(pd);
        assert(htmls.take(p + 1).drop_last() == htmls.take(p as int));
        assert forall|i: int| 0 <= i < pds@.len() implies page_ok(#[trigger] pds@[i], htmls.take(p + 1)[i]) by {
            if i < p {
                assert(page_ok(pds@[i], htmls.take(p as int)[i]));
            }
        }
        p = p + 1;
    }
    assert(htmls.take(p as int) == htmls);
    let fuel = bfs_budget(&pds, Ghost(htmls));
    let mut queue: Vec<Vec<usize>> = Vec::new();
    queue.push(Vec::new());
    let mut head: usize = 0;
    let mut cands: Vec<(String, SnippetCandidate)> = Vec::new();
    let mut steps: usize = 0;
    let ghost init = bfs_init();
    proof {
        assert(paths_view(queue@) =~= init.queue);
        assert(cands_view(cands@) =~= init.cands);
    }
    while head < queue.len() && steps < fuel
        invariant
            pages_ok(pds@, htmls),
            htmls == strings_view(pages@),
            prm == bfs_params(strings_view(boilerplate_patterns@), min_shared_pages, *limits),
            fuel == bfs_fuel(htmls),
            steps <= fuel,
            bfs_run(htmls, prm, init, fuel as nat) == bfs_run(htmls, prm,
                BfsState { queue: paths_view(queue@), head: head as nat, cands: cands_view(cands@) },
                (fuel - steps) as nat),
        decreases fuel - steps,
    {
        let ghost st = BfsState { queue: paths_view(queue@), head: head as nat, cands: cands_view(cands@) };
        let path = queue[head].clone();
        assert(path@ == st.queue[head as int]);
        head = head + 1;
        steps = steps + 1;
        let samples = path_samples_exec(&pds, &path, Ghost(htmls));
        let ghost sv = samples_view(samples@);
        let sfp = shared_fingerprint_for_samples(&samples, min_shared_pages);
        let shared_sel = shared_selectors_for_samples(&samples);
        let is_match = shared_sel.len() > 0 || sfp.is_some();
        let ghost next = bfs_step(htmls, prm, st);
        let mut recorded = false;
        match sfp {
            Some(fp) => {
                if path.len() > 0 && samples.len() > 0 {
                    let rep = longest_text_index_exec(&samples);
                    assert(sv[rep as int] == samples@[rep as int]@);
                    if is_boilerplate_text_candidate(samples[rep].text.as_str(), boilerplate_patterns, limits) {
                        record_samples_exec(&mut cands, fp, &samples);
                        recorded = true;
                    }
                }
            },
            None => {},
        }
        if !recorded && (path.len() == 0 || !is_match) {
            let ccs = child_counts_exec(&pds, &path, Ghost(htmls));
            let kids = shared_child_indices_exec(&ccs, min_shared_pages);
            let ghost q0 = paths_view(queue@);
            let mut j: usize = 0;
            while j < kids.len()
                invariant
                    j <= kids@.len(),
                    paths_view(queue@) == q0 + kids@.take(j as int).map_values(|ci: usize| path@.push(ci)),
                decreases kids@.len() - j,
            {
                let mut np = path.clone();
                np.push(kids[j]);
                let ghost qb = paths_view(queue@);
                queue.push(np);
                assert(paths_view(queue@) =~= qb.push(path@.push(kids@[j as int])));
                assert(kids@.take(j + 1).map_values(|ci: usize| path@.push(ci))
                    =~= kids@.take(j as int).map_values(|ci: usize| path@.push(ci)).push(path@.push(kids@[j as int])));
                j = j + 1;
            }
            assert(kids@.take(j as int) == kids@);
        }
        proof {
            assert(BfsState { queue: paths_view(queue@), head: head as nat, cands: cands_view(cands@) } == next);
        }
    }
    cands
}

} // verus!
