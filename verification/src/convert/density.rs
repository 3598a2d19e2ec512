//! Two text-density scores of an element with plain `i32` arithmetic:
//! one that sums the text of every `<a>` found below the element (text of
//! nested links counted once per enclosing link), and one computed in a
//! single traversal, where text counts as link text once whatever the
//! number of links around it.

use vstd::prelude::*;
use crate::dom::{collect_named, element_text, element_text_exec, named_below, DocModel};
use crate::html::{NodeKind, NodeKindView};
use crate::text::{byte_len, str_eq, string_from_chars, utf8_len};

verus! {

// ---------------------------------------------------------------------------
// Per-link score

/// Sum of `len as i32` over the text lengths of `links`.
pub open spec fn per_link_text_sum(kinds: Seq<NodeKindView>, ch: Seq<Seq<usize>>, links: Seq<usize>) -> int
    decreases links.len(),
{
    if links.len() == 0 {
        0
    } else {
        per_link_text_sum(kinds, ch, links.drop_last())
            + (utf8_len(element_text(kinds, ch, links.last() as int)) as i32) as int
    }
}

/// The running sum of link text lengths stays within `i32` at every step.
pub open spec fn per_link_sums_fit(kinds: Seq<NodeKindView>, ch: Seq<Seq<usize>>, links: Seq<usize>) -> bool {
    forall|j: int| 0 <= j <= links.len() ==>
        i32::MIN <= #[trigger] per_link_text_sum(kinds, ch, links.take(j)) <= i32::MAX
}

/// The `<a>` elements below `k`.
pub open spec fn links_below(kinds: Seq<NodeKindView>, ch: Seq<Seq<usize>>, k: int) -> Seq<usize> {
    named_below(kinds, ch, k, "a"@, kinds.len())
}

/// The inputs on which the per-link score stays within `i32` throughout.
pub open spec fn per_link_score_fits(kinds: Seq<NodeKindView>, ch: Seq<Seq<usize>>, k: int) -> bool {
    let links = links_below(kinds, ch, k);
    let t = (utf8_len(element_text(kinds, ch, k)) as i32) as int;
    &&& per_link_sums_fit(kinds, ch, links)
    &&& links.len() * 20 <= i32::MAX
    &&& i32::MIN <= t - per_link_text_sum(kinds, ch, links) <= i32::MAX
    &&& i32::MIN <= t - per_link_text_sum(kinds, ch, links) - links.len() * 20 <= i32::MAX
}

/// The per-link score: the element's text length minus, for each `<a>`
/// below it, its text length and 20; each length taken `as i32`.
pub open spec fn per_link_score(kinds: Seq<NodeKindView>, ch: Seq<Seq<usize>>, k: int) -> int {
    let links = links_below(kinds, ch, k);
    (utf8_len(element_text(kinds, ch, k)) as i32) as int - per_link_text_sum(kinds, ch, links) - links.len() * 20
}

fn chars_byte_len(v: &Vec<char>) -> (r: usize)
    ensures
        r == utf8_len(v@),
{
    let s = string_from_chars(v.as_slice());
    byte_len(s.as_str())
}

/// Scores element `k`: its text length minus, for every `<a>` below it,
/// that link's text length and a penalty of 20.
pub fn per_link_density_score(m: &DocModel, k: usize) -> (r: i32)
    requires
        m.wf(),
        k < m.kinds@.len(),
        per_link_score_fits(m.kinds_v(), m.children_v(), k as int),
    ensures
        r == per_link_score(m.kinds_v(), m.children_v(), k as int),
{
    let ghost kv = m.kinds_v();
    let ghost ch = m.children_v();
    let text_length = chars_byte_len(&element_text_exec(m, k)) as i32;
    let mut links: Vec<usize> = Vec::new();
    collect_named(m, k, "a", m.kinds.len(), &mut links);
    assert(links@ =~= links_below(kv, ch, k as int));
    let mut link_text_length: i32 = 0;
    let mut link_count: i32 = 0;
    let mut i: usize = 0;
    while i < links.len()
        invariant
            m.wf(),
            kv == m.kinds_v(),
            ch == m.children_v(),
            i <= links@.len(),
            links@ == links_below(kv, ch, k as int),
            forall|t: int| 0 <= t < links@.len() ==> #[trigger] links@[t] < m.kinds@.len(),
            per_link_sums_fit(kv, ch, links@),
            links@.len() * 20 <= i32::MAX,
            link_text_length == per_link_text_sum(kv, ch, links@.take(i as int)),
            link_count == i,
        decreases links@.len() - i,
    {
        assert(links@.take(i + 1).drop_last() == links@.take(i as int));
        assert(links@.take(i + 1).last() == links@[i as int]);
        assert(i32::MIN <= per_link_text_sum(kv, ch, links@.take(i + 1)) <= i32::MAX);
        let len = chars_byte_len(&element_text_exec(m, links[i]));
        link_text_length = link_text_length + len as i32;
        link_count = link_count + 1;
        i = i + 1;
    }
    assert(links@.take(i as int) == links@);
    text_length - link_text_length - link_count * 20
}

// ---------------------------------------------------------------------------
// Single-traversal score

/// What one traversal of the subtree of `k` counts: text bytes, text bytes
/// inside an `<a>` (the subtree's root included, or `inside` already), and
/// `<a>` elements (the root included), exploring at most `fuel` levels.
pub open spec fn traversal_counts(kinds: Seq<NodeKindView>, ch: Seq<Seq<usize>>, k: int, inside: bool, fuel: nat)
    -> (nat, nat, nat)
    decreases fuel, 0nat,
{
    if fuel == 0 || !(0 <= k < kinds.len()) || kinds.len() != ch.len() {
        (0, 0, 0)
    } else {
        match kinds[k] {
            NodeKindView::Text { text } => (utf8_len(text), if inside { utf8_len(text) } else { 0 }, 0),
            NodeKindView::Element { name, .. } => {
                let a = name == "a"@;
                let c = kids_counts(kinds, ch, ch[k], inside || a, (fuel - 1) as nat);
                (c.0, c.1, c.2 + if a { 1nat } else { 0nat })
            },
            NodeKindView::Other => kids_counts(kinds, ch, ch[k], inside, (fuel - 1) as nat),
        }
    }
}

/// The counts of the subtrees of each of `kids`, added up.
pub open spec fn kids_counts(kinds: Seq<NodeKindView>, ch: Seq<Seq<usize>>, kids: Seq<usize>, inside: bool, fuel: nat)
    -> (nat, nat, nat)
    decreases fuel, kids.len(),
{
    if kids.len() == 0 {
        (0, 0, 0)
    } else {
        let p = kids_counts(kinds, ch, kids.drop_last(), inside, fuel);
        let q = traversal_counts(kinds, ch, kids.last() as int, inside, fuel);
        (p.0 + q.0, p.1 + q.1, p.2 + q.2)
    }
}

proof fn lemma_counts_inside_le(kinds: Seq<NodeKindView>, ch: Seq<Seq<usize>>, k: int, inside: bool, fuel: nat)
    ensures
        traversal_counts(kinds, ch, k, inside, fuel).1 <= traversal_counts(kinds, ch, k, inside, fuel).0,
    decreases fuel, 0nat,
{
    if fuel > 0 && 0 <= k < kinds.len() && kinds.len() == ch.len() {
        match kinds[k] {
            NodeKindView::Element { name, .. } => {
                lemma_kids_inside_le(kinds, ch, ch[k], inside || name == "a"@, (fuel - 1) as nat);
            },
            NodeKindView::Other => {
                lemma_kids_inside_le(kinds, ch, ch[k], inside, (fuel - 1) as nat);
            },
            _ => {},
        }
    }
}

proof fn lemma_kids_inside_le(kinds: Seq<NodeKindView>, ch: Seq<Seq<usize>>, kids: Seq<usize>, inside: bool, fuel: nat)
    ensures
        kids_counts(kinds, ch, kids, inside, fuel).1 <= kids_counts(kinds, ch, kids, inside, fuel).0,
    decreases fuel, kids.len(),
{
    if kids.len() > 0 {
        lemma_kids_inside_le(kinds, ch, kids.drop_last(), inside, fuel);
        lemma_counts_inside_le(kinds, ch, kids.last() as int, inside, fuel);
    }
}

proof fn lemma_kids_prefix_le(kinds: Seq<NodeKindView>, ch: Seq<Seq<usize>>, kids: Seq<usize>, inside: bool, fuel: nat, j: int)
    requires
        0 <= j <= kids.len(),
    ensures
        kids_counts(kinds, ch, kids.take(j), inside, fuel).0 <= kids_counts(kinds, ch, kids, inside, fuel).0,
        kids_counts(kinds, ch, kids.take(j), inside, fuel).1 <= kids_counts(kinds, ch, kids, inside, fuel).1,
        kids_counts(kinds, ch, kids.take(j), inside, fuel).2 <= kids_counts(kinds, ch, kids, inside, fuel).2,
    decreases kids.len(),
{
    if j == kids.len() {
        assert(kids.take(j) == kids);
    } else {
        assert(kids.take(j) == kids.drop_last().take(j));
        lemma_kids_prefix_le(kinds, ch, kids.drop_last(), inside, fuel, j);
    }
}

/// Adds the counts of the subtree of `k` to the three running totals.
fn traverse_counts(m: &DocModel, k: usize, inside: bool, fuel: usize, text: &mut usize, link_text: &mut usize, links: &mut i32)
    requires
        m.wf(),
        k < m.kinds@.len(),
        *old(text) + traversal_counts(m.kinds_v(), m.children_v(), k as int, inside, fuel as nat).0 <= usize::MAX,
        *old(link_text) + traversal_counts(m.kinds_v(), m.children_v(), k as int, inside, fuel as nat).1 <= usize::MAX,
        0 <= *old(links),
        *old(links) + traversal_counts(m.kinds_v(), m.children_v(), k as int, inside, fuel as nat).2 <= i32::MAX,
    ensures
        *final(text) == *old(text) + traversal_counts(m.kinds_v(), m.children_v(), k as int, inside, fuel as nat).0,
        *final(link_text) == *old(link_text) + traversal_counts(m.kinds_v(), m.children_v(), k as int, inside, fuel as nat).1,
        *final(links) == *old(links) + traversal_counts(m.kinds_v(), m.children_v(), k as int, inside, fuel as nat).2,
    decreases fuel, 0nat,
{
    let ghost kv = m.kinds_v();
    let ghost ch = m.children_v();
    assert(kv[k as int] == m.kinds@[k as int]@);
    if fuel == 0 {
        return;
    }
    let inner = match &m.kinds[k] {
        NodeKind::Text { text: t } => {
            let len = byte_len(t.as_str());
            *text = *text + len;
            if inside {
                *link_text = *link_text + len;
            }
            return;
        },
        NodeKind::Element { name, .. } => {
            if str_eq(name.as_str(), "a") {
                *links = *links + 1;
                true
            } else {
                inside
            }
        },
        _ => inside,
    };
    let ghost a = kv[k as int] matches NodeKindView::Element { name, .. } && name == "a"@;
    assert(inner == (inside || a));
    let ghost base_text = *old(text);
    let ghost base_link_text = *old(link_text);
    let ghost base_links = *old(links) + if a { 1int } else { 0int };
    let ghost total = kids_counts(kv, ch, ch[k as int], inner, (fuel - 1) as nat);
    let kids = &m.children[k];
    assert(ch[k as int] == kids@);
    let mut j: usize = 0;
    while j < kids.len()
        invariant
            m.wf(),
            kv == m.kinds_v(),
            ch == m.children_v(),
            ch[k as int] == kids@,
            k < m.kinds@.len(),
            fuel > 0,
            j <= kids@.len(),
            total == kids_counts(kv, ch, kids@, inner, (fuel - 1) as nat),
            base_text + total.0 <= usize::MAX,
            base_link_text + total.1 <= usize::MAX,
            0 <= base_links,
            base_links + total.2 <= i32::MAX,
            *text == base_text + kids_counts(kv, ch, kids@.take(j as int), inner, (fuel - 1) as nat).0,
            *link_text == base_link_text + kids_counts(kv, ch, kids@.take(j as int), inner, (fuel - 1) as nat).1,
            *links == base_links + kids_counts(kv, ch, kids@.take(j as int), inner, (fuel - 1) as nat).2,
        decreases kids@.len() - j,
    {
        assert(kids@.take(j + 1).drop_last() == kids@.take(j as int));
        assert(kids@.take(j + 1).last() == kids@[j as int]);
        assert(ch[k as int][j as int] < ch.len());
        proof {
            lemma_kids_prefix_le(kv, ch, kids@, inner, (fuel - 1) as nat, j + 1);
        }
        traverse_counts(m, kids[j], inner, fuel - 1, text, link_text, links);
        j = j + 1;
    }
    assert(kids@.take(j as int) == kids@);
}

/// The inputs on which the single-traversal score stays within its
/// integer types throughout.
pub open spec fn single_pass_score_fits(kinds: Seq<NodeKindView>, ch: Seq<Seq<usize>>, k: int) -> bool {
    let c = traversal_counts(kinds, ch, k, false, kinds.len());
    &&& c.0 <= usize::MAX
    &&& c.2 * 20 <= i32::MAX
    &&& i32::MIN <= (c.0 as i32) as int - (c.1 as i32) as int <= i32::MAX
    &&& i32::MIN <= (c.0 as i32) as int - (c.1 as i32) as int - c.2 * 20 <= i32::MAX
}

/// The single-traversal score: text length minus link text length (each
/// taken `as i32`) minus 20 per `<a>`, the element itself included.
pub open spec fn single_pass_score(kinds: Seq<NodeKindView>, ch: Seq<Seq<usize>>, k: int) -> int {
    let c = traversal_counts(kinds, ch, k, false, kinds.len());
    (c.0 as i32) as int - (c.1 as i32) as int - c.2 * 20
}

/// Scores element `k` in one traversal of its subtree: its text length
/// minus the length of the text inside links, minus 20 per link.
pub fn single_pass_density_score(m: &DocModel, k: usize) -> (r: i32)
    requires
        m.wf(),
        k < m.kinds@.len(),
        single_pass_score_fits(m.kinds_v(), m.children_v(), k as int),
    ensures
        r == single_pass_score(m.kinds_v(), m.children_v(), k as int),
{
    let mut text_length: usize = 0;
    let mut link_text_length: usize = 0;
    let mut link_count: i32 = 0;
    proof {
        lemma_counts_inside_le(m.kinds_v(), m.children_v(), k as int, false, m.kinds@.len() as nat);
    }
    traverse_counts(m, k, false, m.kinds.len(), &mut text_length, &mut link_text_length, &mut link_count);
    (text_length as i32) - (link_text_length as i32) - link_count * 20
}

} // verus!
