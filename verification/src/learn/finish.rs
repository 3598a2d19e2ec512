//! Final stage of learning: ranking scored selectors, promoting snippet
//! selectors and keeping the snippets that no selected selector covers.

use vstd::prelude::*;
use crate::dom::{has_parent, load_model, parent_flags};
use crate::html::{html_node_children, html_node_kinds, parse_fragment, NodeKind, NodeKindView};
use crate::learn::bfs::node_attrs;
use crate::learn::ranking::{insert_ranked, ranks_before, lemma_ranked_order, ranked_texts, ranked_view, strictly_ranked, Ranked, RankedView};
use crate::learn::selectors::{
    collect_promoted_selectors, dedup_seqs, merge_ranked_and_promoted_selectors,
    promoted_keys, keyed_by_priority, selector_candidates, selector_priority,
    spec_selector_candidates, spec_selector_priority,
};
use crate::learn::types::{distinct_usizes, distinct_selectors, strings_view, SnippetCandidate, Removals};
use crate::text::{byte_len, utf8_len};

verus! {

/// `x`, or `usize::MAX` where `x` is larger.
pub open spec fn saturate(x: int) -> int {
    if x > usize::MAX { usize::MAX as int } else { x }
}

/// The pages a boilerplate element must be shared by: two thirds of the
/// pages, rounded up, and at least 2 (computed with saturating arithmetic).
pub open spec fn spec_min_shared(page_count: nat) -> nat {
    let t = saturate(saturate(2 * page_count as int) + 2) / 3;
    if t < 2 { 2 } else { t as nat }
}

pub fn minimum_shared_page_count(page_count: usize) -> (r: usize)
    ensures
        r == spec_min_shared(page_count as nat),
        r >= 2,
        page_count as int <= (usize::MAX - 2) / 2 ==> 3 * r >= 2 * page_count,
{
    let doubled: usize = if page_count > usize::MAX / 2 { usize::MAX } else { page_count * 2 };
    let bumped: usize = if doubled > usize::MAX - 2 { usize::MAX } else { doubled + 2 };
    let two_thirds: usize = bumped / 3;
    if two_thirds < 2 { 2 } else { two_thirds }
}

/// Key of a scored selector: score first, then priority.
pub open spec fn score_key(sel: Seq<char>, score: nat) -> RankedView {
    (score, spec_selector_priority(sel), sel)
}

pub open spec fn scored_keys(scored: Seq<(String, u64)>) -> Set<RankedView> {
    Set::new(|k: RankedView| exists|i: int| 0 <= i < scored.len()
        && k == score_key((#[trigger] scored[i]).0@, scored[i].1 as nat))
}

/// The scored selectors ordered by score (highest first), then priority
/// (highest first), then lexicographically.
pub fn rank_selectors(scored: &Vec<(String, u64)>) -> (r: Vec<String>)
    ensures
        strings_view(r@) == ranked_texts(scored_keys(scored@)),
{
    let mut v: Vec<Ranked> = Vec::new();
    let mut i: usize = 0;
    while i < scored.len()
        invariant
            i <= scored@.len(),
            strictly_ranked(ranked_view(v@)),
            ranked_view(v@).to_set() == scored_keys(scored@.take(i as int)),
        decreases scored@.len() - i,
    {
        let p = selector_priority(scored[i].0.as_str());
        let x = Ranked { major: scored[i].1, minor: p as u64, text: scored[i].0.clone() };
        insert_ranked(&mut v, x);
        proof {
            let st = scored@.take(i + 1);
            assert forall|k: RankedView| #[trigger] scored_keys(st).contains(k) <==>
                (scored_keys(scored@.take(i as int)).contains(k) || k == score_key(scored@[i as int].0@, scored@[i as int].1 as nat)) by {
                if scored_keys(st).contains(k) {
                    let q = choose|q: int| 0 <= q < st.len() && k == score_key((#[trigger] st[q]).0@, st[q].1 as nat);
                    if q < i {
                        assert(scored@.take(i as int)[q] == st[q]);
                    }
                }
                if scored_keys(scored@.take(i as int)).contains(k) {
                    let q = choose|q: int| 0 <= q < i && k == score_key((#[trigger] scored@.take(i as int)[q]).0@, scored@.take(i as int)[q].1 as nat);
                    assert(st[q] == scored@.take(i as int)[q]);
                }
                if k == score_key(scored@[i as int].0@, scored@[i as int].1 as nat) {
                    assert(st[i as int] == scored@[i as int]);
                }
            }
            assert(ranked_view(v@).to_set() =~= scored_keys(st));
        }
        i = i + 1;
    }
    assert(scored@.take(i as int) == scored@);
    proof {
        lemma_ranked_order(ranked_view(v@), scored_keys(scored@));
    }
    let mut out: Vec<String> = Vec::new();
    let mut j: usize = 0;
    while j < v.len()
        invariant
            j <= v@.len(),
            out@.len() == j,
            forall|t: int| 0 <= t < j ==> (#[trigger] out@[t])@ == v@[t].text@,
        decreases v@.len() - j,
    {
        out.push(v[j].text.clone());
        j = j + 1;
    }
    assert(strings_view(out@) =~= ranked_view(v@).map_values(|k: RankedView| k.2));
    out
}

/// Whether some element of the snippet, parsed as a fragment, has a
/// selector candidate among `selected`.
pub open spec fn spec_snippet_has_selected(snippet: Seq<char>, selected: Seq<Seq<char>>) -> bool {
    let kinds = html_node_kinds(snippet, true);
    let ch = html_node_children(snippet, true, Seq::empty());
    exists|k: int, j: int| 0 <= k < kinds.len() && has_parent(ch, k)
        && kinds[k] is Element
        && 0 <= j < spec_selector_candidates(node_attrs(kinds[k])).len()
        && selected.contains(#[trigger] spec_selector_candidates(node_attrs(kinds[k]))[j])
}

fn any_in(cands: &Vec<String>, selected: &Vec<String>) -> (r: bool)
    ensures
        r == exists|j: int| 0 <= j < cands@.len() && strings_view(selected@).contains(#[trigger] strings_view(cands@)[j]),
{
    let mut j: usize = 0;
    while j < cands.len()
        invariant
            j <= cands@.len(),
            forall|t: int| 0 <= t < j ==> !strings_view(selected@).contains(#[trigger] strings_view(cands@)[t]),
        decreases cands@.len() - j,
    {
        let mut t: usize = 0;
        while t < selected.len()
            invariant
                j < cands@.len(),
                t <= selected@.len(),
                forall|q: int| 0 <= q < t ==> selected@[q]@ != cands@[j as int]@,
            decreases selected@.len() - t,
        {
            if selected[t] == cands[j] {
                assert(strings_view(selected@)[t as int] == strings_view(cands@)[j as int]);
                return true;
            }
            t = t + 1;
        }
        proof {
            if strings_view(selected@).contains(strings_view(cands@)[j as int]) {
                let q = choose|q: int| 0 <= q < strings_view(selected@).len() && strings_view(selected@)[q] == strings_view(cands@)[j as int];
                assert(selected@[q]@ == cands@[j as int]@);
            }
        }
        j = j + 1;
    }
    false
}

/// Whether some element of `snippet` carries one of the selected selectors.
pub fn snippet_contains_selected_selector(snippet: &str, selected: &Vec<String>) -> (r: bool)
    ensures
        r == spec_snippet_has_selected(snippet@, strings_view(selected@)),
{
    let d = parse_fragment(snippet);
    let m = load_model(&d);
    let parents = parent_flags(&m);
    let ghost kv = m.kinds_v();
    let ghost ch = m.children_v();
    let ghost sel = strings_view(selected@);
    let n = m.kinds.len();
    let mut k: usize = 0;
    while k < n
        invariant
            k <= n,
            n == m.kinds@.len(),
            m.wf(),
            kv == m.kinds_v(),
            ch == m.children_v(),
            kv == html_node_kinds(snippet@, true),
            ch == html_node_children(snippet@, true, Seq::empty()),
            sel == strings_view(selected@),
            parents@.len() == n,
            forall|t: int| 0 <= t < n ==> parents@[t] == has_parent(ch, t),
            forall|q: int, j: int| 0 <= q < k && has_parent(ch, q) && kv[q] is Element
                && 0 <= j < spec_selector_candidates(node_attrs(kv[q])).len()
                ==> !sel.contains(#[trigger] spec_selector_candidates(node_attrs(kv[q]))[j]),
        decreases n - k,
    {
        assert(kv[k as int] == m.kinds@[k as int]@);
        match &m.kinds[k] {
            NodeKind::Element { attrs, .. } => {
                if parents[k] {
                    let cands = selector_candidates(attrs);
                    if any_in(&cands, selected) {
                        proof {
                            let cv = spec_selector_candidates(node_attrs(kv[k as int]));
                            assert(strings_view(cands@) == cv);
                            let j = choose|j: int| 0 <= j < cands@.len() && sel.contains(#[trigger] strings_view(cands@)[j]);
                            assert(sel.contains(cv[j]));
                        }
                        return true;
                    }
                }
            },
            _ => {},
        }
        k = k + 1;
    }
    false
}

/// Snippets ordered longest first (in bytes), then lexicographically.
pub open spec fn snippet_key(s: Seq<char>) -> RankedView {
    (utf8_len(s), 0, s)
}

/// A candidate's snippet is kept when the candidate was seen on at least
/// `min` pages, none of its selectors was selected and no element of the
/// snippet carries a selected selector.
pub open spec fn keeps_snippet(c: SnippetCandidate, min: nat, selected: Seq<Seq<char>>) -> bool {
    &&& distinct_usizes(c.pages_view()).len() >= min
    &&& forall|s: Seq<char>| distinct_selectors(c.selectors_view()).contains(s) ==> !selected.contains(s)
    &&& !spec_snippet_has_selected(c.snippet_view(), selected)
}

pub open spec fn kept_snippet_keys(cands: Seq<(String, SnippetCandidate)>, min: nat, selected: Seq<Seq<char>>) -> Set<RankedView> {
    Set::new(|k: RankedView| exists|i: int| 0 <= i < cands.len()
        && keeps_snippet((#[trigger] cands[i]).1, min, selected)
        && k == snippet_key(cands[i].1.snippet_view()))
}

fn selectors_disjoint(c: &SnippetCandidate, selected: &Vec<String>) -> (r: bool)
    ensures
        r == forall|s: Seq<char>| distinct_selectors(c.selectors_view()).contains(s) ==> !strings_view(selected@).contains(s),
{
    let mut t: usize = 0;
    while t < selected.len()
        invariant
            t <= selected@.len(),
            forall|q: int| 0 <= q < t ==> !distinct_selectors(c.selectors_view()).contains(#[trigger] selected@[q]@),
        decreases selected@.len() - t,
    {
        if c.has_selector(&selected[t]) {
            proof {
                assert(strings_view(selected@).contains(selected@[t as int]@)) by {
                    assert(strings_view(selected@)[t as int] == selected@[t as int]@);
                }
            }
            return false;
        }
        t = t + 1;
    }
    proof {
        assert forall|s: Seq<char>| distinct_selectors(c.selectors_view()).contains(s) implies !strings_view(selected@).contains(s) by {
            if strings_view(selected@).contains(s) {
                let q = choose|q: int| 0 <= q < strings_view(selected@).len() && strings_view(selected@)[q] == s;
                assert(selected@[q]@ == s);
            }
        }
    }
    true
}

/// The snippets to remove: those of kept candidates, without repeats,
/// longest first and then lexicographically.
pub fn filter_snippet_candidates(
    snippet_candidates: &Vec<(String, SnippetCandidate)>,
    min_shared_pages: usize,
    selected_selectors: &Vec<String>,
) -> (r: Vec<String>)
    ensures
        strings_view(r@) == ranked_texts(
            kept_snippet_keys(snippet_candidates@, min_shared_pages as nat, strings_view(selected_selectors@))),
        forall|i: int, j: int| 0 <= i < j < r@.len() ==>
            ranks_before(snippet_key(#[trigger] r@[i]@), snippet_key(#[trigger] r@[j]@)),
{
    let ghost cands = snippet_candidates@;
    let ghost min = min_shared_pages as nat;
    let ghost sel = strings_view(selected_selectors@);
    let mut v: Vec<Ranked> = Vec::new();
    let mut i: usize = 0;
    while i < snippet_candidates.len()
        invariant
            i <= cands.len(),
            cands == snippet_candidates@,
            min == min_shared_pages as nat,
            sel == strings_view(selected_selectors@),
            strictly_ranked(ranked_view(v@)),
            ranked_view(v@).to_set() == kept_snippet_keys(cands.take(i as int), min, sel),
        decreases cands.len() - i,
    {
        let c = &snippet_candidates[i].1;
        let ghost keep = keeps_snippet(*c, min, sel);
        let k1 = c.pages_seen_count() >= min_shared_pages;
        let mut kept = false;
        if k1 && selectors_disjoint(c, selected_selectors)
            && !snippet_contains_selected_selector(c.snippet().as_str(), selected_selectors) {
            let s = c.snippet().clone();
            let l = byte_len(s.as_str());
            insert_ranked(&mut v, Ranked { major: l as u64, minor: 0, text: s });
            kept = true;
        }
        proof {
            assert(kept == keep);
            let ct = cands.take(i + 1);
            assert forall|k: RankedView| #[trigger] kept_snippet_keys(ct, min, sel).contains(k) <==>
                (kept_snippet_keys(cands.take(i as int), min, sel).contains(k) || (keep && k == snippet_key(c.snippet_view()))) by {
                if kept_snippet_keys(ct, min, sel).contains(k) {
                    let q = choose|q: int| 0 <= q < ct.len() && keeps_snippet((#[trigger] ct[q]).1, min, sel)
                        && k == snippet_key(ct[q].1.snippet_view());
                    if q < i {
                        assert(cands.take(i as int)[q] == ct[q]);
                    }
                }
                if kept_snippet_keys(cands.take(i as int), min, sel).contains(k) {
                    let q = choose|q: int| 0 <= q < i && keeps_snippet((#[trigger] cands.take(i as int)[q]).1, min, sel)
                        && k == snippet_key(cands.take(i as int)[q].1.snippet_view());
                    assert(ct[q] == cands.take(i as int)[q]);
                }
                if keep && k == snippet_key(c.snippet_view()) {
                    assert(ct[i as int] == cands[i as int]);
                }
            }
            assert(ranked_view(v@).to_set() =~= kept_snippet_keys(ct, min, sel));
        }
        i = i + 1;
    }
    assert(cands.take(i as int) == cands);
    proof {
        lemma_ranked_order(ranked_view(v@), kept_snippet_keys(cands, min, sel));
    }
    let mut out: Vec<String> = Vec::new();
    let mut j: usize = 0;
    while j < v.len()
        invariant
            j <= v@.len(),
            out@.len() == j,
            forall|t: int| 0 <= t < j ==> (#[trigger] out@[t])@ == v@[t].text@,
        decreases v@.len() - j,
    {
        out.push(v[j].text.clone());
        j = j + 1;
    }
    assert(strings_view(out@) =~= ranked_view(v@).map_values(|k: RankedView| k.2));
    proof {
        let rv = ranked_view(v@);
        assert forall|t: int| 0 <= t < rv.len() implies #[trigger] rv[t] == snippet_key(rv[t].2) by {
            assert(rv.to_set().contains(rv[t]));
            assert(kept_snippet_keys(cands, min, sel).contains(rv[t]));
        }
        assert forall|i: int, j: int| 0 <= i < j < out@.len() implies
            ranks_before(snippet_key(#[trigger] out@[i]@), snippet_key(#[trigger] out@[j]@)) by {
            assert(rv[i] == snippet_key(rv[i].2));
            assert(rv[j] == snippet_key(rv[j].2));
            assert(out@[i]@ == rv[i].2);
            assert(out@[j]@ == rv[j].2);
        }
    }
    out
}

} // verus!
