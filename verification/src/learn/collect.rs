//! Selector stage of learning: every stable selector of every element that
//! has text, with the page and the fingerprint of that text.

use vstd::prelude::*;
use crate::dom::{
    collect_texts, has_parent, join_all_spaced, load_model, parent_flags, pieces_view,
    subtree_texts, DocModel,
};
use crate::html::{html_node_children, html_node_kinds, parse_document, NodeKind, NodeKindView};
use crate::learn::fingerprint::{spec_fingerprint, normalized_text_fingerprint};
use crate::learn::selectors::{dedup_seqs, selector_candidates, spec_selector_candidates};
use crate::learn::types::{SelectorStats, strings_view};
use crate::text::{collapse_whitespace, collapse_ws_chars, join_spaced, string_from_chars};

verus! {

/// Elements whose content is never boilerplate text.
pub open spec fn is_skipped_name(name: Seq<char>) -> bool {
    name == "script"@ || name == "style"@ || name == "template"@ || name == "noscript"@
}

pub fn should_skip_element(name: &str) -> (r: bool)
    ensures
        r == is_skipped_name(name@),
{
    crate::text::str_eq(name, "script") || crate::text::str_eq(name, "style")
        || crate::text::str_eq(name, "template") || crate::text::str_eq(name, "noscript")
}

/// The whitespace-normalized text of the subtree rooted at `k`.
pub open spec fn node_text(kinds: Seq<NodeKindView>, ch: Seq<Seq<usize>>, k: int) -> Seq<char> {
    collapse_whitespace(join_spaced(subtree_texts(kinds, ch, k, kinds.len())))
}

pub type Entry = (Seq<char>, usize, Seq<char>);

/// The entries of arena node `k` of page `page`: when it is an element with
/// a parent, not skipped, whose text and fingerprint are not empty, one
/// entry per selector candidate.
pub open spec fn node_entries(kinds: Seq<NodeKindView>, ch: Seq<Seq<usize>>, page: usize, k: int) -> Seq<Entry> {
    match kinds[k] {
        NodeKindView::Element { name, attrs } => {
            let text = node_text(kinds, ch, k);
            let fp = spec_fingerprint(text);
            if has_parent(ch, k) && !is_skipped_name(name) && text.len() > 0 && fp.len() > 0 {
                spec_selector_candidates(attrs).map_values(|s: Seq<char>| (s, page, fp))
            } else {
                Seq::empty()
            }
        },
        _ => Seq::empty(),
    }
}

/// The entries of the first `n` arena nodes, in arena order.
pub open spec fn nodes_entries(kinds: Seq<NodeKindView>, ch: Seq<Seq<usize>>, page: usize, n: int) -> Seq<Entry>
    decreases n,
{
    if n <= 0 {
        Seq::empty()
    } else {
        nodes_entries(kinds, ch, page, n - 1) + node_entries(kinds, ch, page, n - 1)
    }
}

/// The entries of one page, parsed as a document.
pub open spec fn page_entries(html: Seq<char>, page: usize) -> Seq<Entry> {
    let kinds = html_node_kinds(html, false);
    let ch = html_node_children(html, false, Seq::empty());
    nodes_entries(kinds, ch, page, kinds.len() as int)
}

/// The entries of the first `n` pages.
pub open spec fn pages_entries(pages: Seq<Seq<char>>, n: int) -> Seq<Entry>
    decreases n,
{
    if n <= 0 {
        Seq::empty()
    } else {
        pages_entries(pages, n - 1) + page_entries(pages[n - 1], (n - 1) as usize)
    }
}

pub open spec fn entries_view(v: Seq<(String, usize, String)>) -> Seq<Entry> {
    v.map_values(|e: (String, usize, String)| (e.0@, e.1, e.2@))
}

/// The whitespace-normalized text of node `k`.
pub fn node_text_exec(m: &DocModel, k: usize) -> (r: Vec<char>)
    requires
        m.wf(),
        k < m.kinds@.len(),
    ensures
        r@ == node_text(m.kinds_v(), m.children_v(), k as int),
{
    let mut pieces: Vec<Vec<char>> = Vec::new();
    collect_texts(m, k, m.kinds.len(), &mut pieces);
    assert(pieces_view(pieces@) =~= subtree_texts(m.kinds_v(), m.children_v(), k as int, m.kinds@.len() as nat));
    let joined = join_all_spaced(&pieces);
    collapse_ws_chars(&joined)
}

fn push_page_entries(html: &str, page: usize, out: &mut Vec<(String, usize, String)>)
    ensures
        entries_view(final(out)@) == entries_view(old(out)@) + page_entries(html@, page),
{
    let d = parse_document(html);
    let m = load_model(&d);
    let parents = parent_flags(&m);
    let ghost kv = m.kinds_v();
    let ghost ch = m.children_v();
    let n = m.kinds.len();
    let mut k: usize = 0;
    while k < n
        invariant
            k <= n,
            n == m.kinds@.len(),
            m.wf(),
            kv == m.kinds_v(),
            ch == m.children_v(),
            kv == html_node_kinds(html@, false),
            ch == html_node_children(html@, false, Seq::empty()),
            parents@.len() == n,
            forall|t: int| 0 <= t < n ==> parents@[t] == has_parent(ch, t),
            entries_view(out@) == entries_view(old(out)@) + nodes_entries(kv, ch, page, k as int),
        decreases n - k,
    {
        assert(kv[k as int] == m.kinds@[k as int]@);
        match &m.kinds[k] {
            NodeKind::Element { name, attrs } => {
                if parents[k] && !should_skip_element(name.as_str()) {
                    let text = node_text_exec(&m, k);
                    if text.len() > 0 {
                        let text_s = string_from_chars(text.as_slice());
                        let fp = normalized_text_fingerprint(text_s.as_str());
                        if !fp.as_str().is_empty() {
                            let cands = selector_candidates(attrs);
                            let ghost cv = strings_view(cands@);
                            let ghost base = entries_view(out@);
                            let mut j: usize = 0;
                            while j < cands.len()
                                invariant
                                    j <= cands@.len(),
                                    cv == strings_view(cands@),
                                    entries_view(out@) == base + cv.take(j as int).map_values(|s: Seq<char>| (s, page, fp@)),
                                decreases cands@.len() - j,
                            {
                                let ghost before = out@;
                                out.push((cands[j].clone(), page, fp.clone()));
                                assert(entries_view(out@) =~= entries_view(before).push((cv[j as int], page, fp@)));
                                assert(cv.take(j + 1).map_values(|s: Seq<char>| (s, page, fp@))
                                    =~= cv.take(j as int).map_values(|s: Seq<char>| (s, page, fp@)).push((cv[j as int], page, fp@)));
                                j = j + 1;
                            }
                            assert(cv.take(j as int) == cv);
                        }
                    }
                }
            },
            _ => {},
        }
        k = k + 1;
    }
}

} // verus!

verus! {

/// The matches recorded for selector `sel`: page and fingerprint of each of
/// its entries, in order.
pub open spec fn selector_records(entries: Seq<Entry>, sel: Seq<char>) -> Seq<(usize, Seq<char>)>
    decreases entries.len(),
{
    if entries.len() == 0 {
        Seq::empty()
    } else {
        let prev = selector_records(entries.drop_last(), sel);
        if entries.last().0 == sel { prev.push((entries.last().1, entries.last().2)) } else { prev }
    }
}

pub open spec fn entry_selectors(entries: Seq<Entry>) -> Seq<Seq<char>> {
    entries.map_values(|e: Entry| e.0)
}

/// `keys` are the distinct selectors of `entries` and `stats` their matches.
pub open spec fn aggregated(keys: Seq<String>, stats: Seq<SelectorStats>, entries: Seq<Entry>) -> bool {
    &&& keys.len() == stats.len()
    &&& strings_view(keys) == dedup_seqs(entry_selectors(entries))
    &&& forall|i: int| 0 <= i < stats.len() ==> (#[trigger] stats[i]).view() == selector_records(entries, keys[i]@)
}

fn add_entry(
    keys: &mut Vec<String>,
    stats: &mut Vec<SelectorStats>,
    e: &(String, usize, String),
    Ghost(pre): Ghost<Seq<Entry>>,
)
    requires
        aggregated(old(keys)@, old(stats)@, pre),
    ensures
        aggregated(final(keys)@, final(stats)@, pre.push((e.0@, e.1, e.2@))),
{
    let ghost cur = pre.push((e.0@, e.1, e.2@));
    assert(cur.drop_last() == pre);
    assert(entry_selectors(cur) == entry_selectors(pre).push(e.0@));
    assert(entry_selectors(cur).drop_last() == entry_selectors(pre));
    let mut j: usize = 0;
    while j < keys.len()
        invariant
            j <= keys@.len(),
            forall|q: int| 0 <= q < j ==> keys@[q]@ != e.0@,
        ensures
            j <= keys@.len(),
            j < keys@.len() ==> keys@[j as int]@ == e.0@,
            j == keys@.len() ==> forall|q: int| 0 <= q < keys@.len() ==> keys@[q]@ != e.0@,
        decreases keys@.len() - j,
    {
        if keys[j] == e.0 {
            break;
        }
        j = j + 1;
    }
    if j < keys.len() {
        proof {
            assert(strings_view(keys@)[j as int] == e.0@);
            assert(dedup_seqs(entry_selectors(pre)).contains(e.0@));
            assert(dedup_seqs(entry_selectors(cur)) == dedup_seqs(entry_selectors(pre)));
            crate::learn::selectors::lemma_dedup_distinct(entry_selectors(pre));
        }
        let ghost old_stats = stats@;
        stats[j].record(e.1, e.2.as_str());
        proof {
            assert forall|i: int| 0 <= i < stats@.len() implies (#[trigger] stats@[i]).view()
                == selector_records(cur, keys@[i]@) by {
                if i != j {
                    assert(stats@[i] == old_stats[i]);
                    assert(keys@[i]@ != e.0@) by {
                        if keys@[i]@ == e.0@ {
                            assert(strings_view(keys@)[i] == strings_view(keys@)[j as int]);
                        }
                    }
                }
            }
        }
    } else {
        proof {
            assert(!dedup_seqs(entry_selectors(pre)).contains(e.0@)) by {
                if dedup_seqs(entry_selectors(pre)).contains(e.0@) {
                    let q = choose|q: int| 0 <= q < strings_view(keys@).len() && strings_view(keys@)[q] == e.0@;
                    assert(keys@[q]@ == e.0@);
                }
            }
            assert(dedup_seqs(entry_selectors(cur)) == dedup_seqs(entry_selectors(pre)).push(e.0@));
            lemma_selector_records_absent(pre, e.0@);
        }
        let ghost old_keys = strings_view(keys@);
        let ghost old_stats = stats@;
        keys.push(e.0.clone());
        let mut st = SelectorStats::new();
        st.record(e.1, e.2.as_str());
        stats.push(st);
        proof {
            assert(strings_view(keys@) =~= old_keys.push(e.0@));
            assert forall|i: int| 0 <= i < stats@.len() implies (#[trigger] stats@[i]).view()
                == selector_records(cur, keys@[i]@) by {
                if i < old_stats.len() {
                    assert(stats@[i] == old_stats[i]);
                    assert(keys@[i]@ != e.0@) by {
                        if keys@[i]@ == e.0@ {
                            assert(old_keys[i] == e.0@);
                        }
                    }
                } else {
                    assert(selector_records(pre, e.0@) == Seq::<(usize, Seq<char>)>::empty());
                    assert(Seq::<(usize, Seq<char>)>::empty().push((e.1, e.2@)) == selector_records(cur, e.0@));
                }
            }
        }
    }
}

/// The per-selector statistics of all pages: for every distinct selector
/// (in order of first entry), its matches.
pub fn collect_selector_stats(pages: &Vec<String>) -> (r: (Vec<String>, Vec<SelectorStats>))
    ensures
        r.0@.len() == r.1@.len(),
        strings_view(r.0@) == dedup_seqs(entry_selectors(pages_entries(strings_view(pages@), pages@.len() as int))),
        forall|i: int| 0 <= i < r.1@.len() ==> (#[trigger] r.1@[i]).view()
            == selector_records(pages_entries(strings_view(pages@), pages@.len() as int), r.0@[i]@),
{
    let mut entries: Vec<(String, usize, String)> = Vec::new();
    let mut p: usize = 0;
    while p < pages.len()
        invariant
            p <= pages@.len(),
            entries_view(entries@) == pages_entries(strings_view(pages@), p as int),
        decreases pages@.len() - p,
    {
        assert(strings_view(pages@)[p as int] == pages@[p as int]@);
        push_page_entries(pages[p].as_str(), p, &mut entries);
        p = p + 1;
    }
    let ghost all = entries_view(entries@);
    let mut keys: Vec<String> = Vec::new();
    let mut stats: Vec<SelectorStats> = Vec::new();
    let mut t: usize = 0;
    proof {
        assert(all.take(0) == Seq::<Entry>::empty());
        assert(entry_selectors(all.take(0)) == Seq::<Seq<char>>::empty());
        assert(strings_view(keys@) == Seq::<Seq<char>>::empty());
    }
    while t < entries.len()
        invariant
            t <= entries@.len(),
            all == entries_view(entries@),
            aggregated(keys@, stats@, all.take(t as int)),
        decreases entries@.len() - t,
    {
        let ghost pre = all.take(t as int);
        assert(all.take(t + 1) == pre.push(all[t as int]));
        add_entry(&mut keys, &mut stats, &entries[t], Ghost(pre));
        t = t + 1;
    }
    assert(all.take(t as int) == all);
    (keys, stats)
}

pub proof fn lemma_selector_records_absent(entries: Seq<Entry>, sel: Seq<char>)
    requires
        !dedup_seqs(entry_selectors(entries)).contains(sel),
    ensures
        selector_records(entries, sel) == Seq::<(usize, Seq<char>)>::empty(),
    decreases entries.len(),
{
    if entries.len() > 0 {
        let pre = entries.drop_last();
        assert(entry_selectors(entries).drop_last() == entry_selectors(pre));
        assert(entry_selectors(entries).last() == entries.last().0);
        let dp = dedup_seqs(entry_selectors(pre));
        if dp.contains(sel) {
            let q = choose|q: int| 0 <= q < dp.len() && dp[q] == sel;
            assert(dedup_seqs(entry_selectors(entries))[q] == sel);
        }
        if entries.last().0 == sel {
            if !dp.contains(sel) {
                assert(dedup_seqs(entry_selectors(entries)) == dp.push(sel));
                assert(dedup_seqs(entry_selectors(entries))[dp.len() as int] == sel);
            }
        }
        lemma_selector_records_absent(pre, sel);
    }
}

} // verus!
