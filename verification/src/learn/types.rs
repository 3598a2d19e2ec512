//! Learning results, errors and the per-selector and per-snippet tallies.

use vstd::prelude::*;
use crate::text::{decimal, usize_to_decimal, string_from_chars, byte_len, utf8_len};
use crate::learn::ranking::{Ranked, ranks_before, ranks_before_exec, lemma_ranks_total, lemma_ranks_transitive, lemma_ranks_irreflexive};
use crate::learn::selectors::{selector_priority, spec_selector_priority};

verus! {

/// Boilerplate selectors and snippets discovered from a set of HTML pages.
#[derive(Debug)]
pub struct Removals {
    /// CSS selectors that match boilerplate elements.
    pub css_selectors_to_remove: Vec<String>,
    /// Verbatim HTML snippets that appear across pages but lack stable
    /// selectors.
    pub html_to_remove: Vec<String>,
}

/// Error returned by learning.
#[derive(Debug)]
pub enum LearnError {
    TooFewPages(usize),
}

pub open spec fn too_few_pages_message(n: nat) -> Seq<char> {
    "learn requires at least 2 HTML pages, got "@ + decimal(n)
}

impl LearnError {
    /// The error's message.
    pub fn message(&self) -> (r: String)
        ensures
            match self {
                LearnError::TooFewPages(n) => r@ == too_few_pages_message(*n as nat),
            },
    {
        match self {
            LearnError::TooFewPages(n) => {
                let mut out = crate::text::str_chars("learn requires at least 2 HTML pages, got ");
                let digits = usize_to_decimal(*n);
                let ghost pre = out@;
                let mut i: usize = 0;
                while i < digits.len()
                    invariant
                        i <= digits@.len(),
                        out@ == pre + digits@.take(i as int),
                    decreases digits@.len() - i,
                {
                    out.push(digits[i]);
                    assert(digits@.take(i + 1) == digits@.take(i as int).push(digits@[i as int]));
                    i = i + 1;
                }
                assert(digits@.take(digits@.len() as int) == digits@);
                string_from_chars(out.as_slice())
            },
        }
    }
}

pub open spec fn recs_view(v: Seq<(usize, String)>) -> Seq<(usize, Seq<char>)> {
    v.map_values(|r: (usize, String)| (r.0, r.1@))
}

pub open spec fn strings_view(v: Seq<String>) -> Seq<Seq<char>> {
    v.map_values(|s: String| s@)
}

/// Number of matches recorded on page `p`.
pub open spec fn count_page(s: Seq<(usize, Seq<char>)>, p: usize) -> nat
    decreases s.len(),
{
    if s.len() == 0 {
        0
    } else {
        count_page(s.drop_last(), p) + if s.last().0 == p { 1nat } else { 0nat }
    }
}

/// Number of matches recorded on page `p` with fingerprint `fp`.
pub open spec fn count_page_fp(s: Seq<(usize, Seq<char>)>, p: usize, fp: Seq<char>) -> nat
    decreases s.len(),
{
    if s.len() == 0 {
        0
    } else {
        count_page_fp(s.drop_last(), p, fp) + if s.last() == (p, fp) { 1nat } else { 0nat }
    }
}

/// The pages that have a match, in order of first match.
pub open spec fn distinct_pages(s: Seq<(usize, Seq<char>)>) -> Seq<usize>
    decreases s.len(),
{
    if s.len() == 0 {
        Seq::empty()
    } else {
        let prev = distinct_pages(s.drop_last());
        if prev.contains(s.last().0) { prev } else { prev.push(s.last().0) }
    }
}

/// The pages that have a match with fingerprint `fp`, in order.
pub open spec fn fp_pages(s: Seq<(usize, Seq<char>)>, fp: Seq<char>) -> Seq<usize>
    decreases s.len(),
{
    if s.len() == 0 {
        Seq::empty()
    } else {
        let prev = fp_pages(s.drop_last(), fp);
        if s.last().1 == fp && !prev.contains(s.last().0) { prev.push(s.last().0) } else { prev }
    }
}

/// The fingerprints recorded, in order of first record.
pub open spec fn distinct_fps(s: Seq<(usize, Seq<char>)>) -> Seq<Seq<char>>
    decreases s.len(),
{
    if s.len() == 0 {
        Seq::empty()
    } else {
        let prev = distinct_fps(s.drop_last());
        if prev.contains(s.last().1) { prev } else { prev.push(s.last().1) }
    }
}

/// A fingerprint is shared when it occurs on at least `min` pages.
pub open spec fn is_shared(s: Seq<(usize, Seq<char>)>, fp: Seq<char>, min: nat) -> bool {
    fp_pages(s, fp).len() >= min
}

/// How many of `fps` are shared in `s`.
pub open spec fn count_shared(s: Seq<(usize, Seq<char>)>, fps: Seq<Seq<char>>, min: nat) -> nat
    decreases fps.len(),
{
    if fps.len() == 0 {
        0
    } else {
        count_shared(s, fps.drop_last(), min) + if is_shared(s, fps.last(), min) { 1nat } else { 0nat }
    }
}

/// How many of the matches `t` on page `p` have a fingerprint shared in `s`.
pub open spec fn count_stable(s: Seq<(usize, Seq<char>)>, t: Seq<(usize, Seq<char>)>, p: usize, min: nat) -> nat
    decreases t.len(),
{
    if t.len() == 0 {
        0
    } else {
        count_stable(s, t.drop_last(), p, min)
            + if t.last().0 == p && is_shared(s, t.last().1, min) { 1nat } else { 0nat }
    }
}

/// Page index, match count and stable-match count of one page.
pub struct PageStability {
    pub page: usize,
    pub total: usize,
    pub stable: usize,
}

/// What the scoring of a selector reads: for each page that it matches, its
/// total and stable matches, and the number of shared fingerprints.
pub struct Stability {
    pub pages: Vec<PageStability>,
    pub shared_fingerprints: usize,
}

pub open spec fn page_stability_view(s: Seq<(usize, Seq<char>)>, p: usize, min: nat) -> (usize, nat, nat) {
    (p, count_page(s, p), count_stable(s, s, p, min))
}

/// The stability of a selector's matches, or `None` when the selector
/// matches fewer than `min` pages, more than `max` times on some page, or
/// has no shared fingerprint.
pub open spec fn spec_stability(s: Seq<(usize, Seq<char>)>, min: nat, max: nat)
    -> Option<(Seq<(usize, nat, nat)>, nat)>
{
    let pages = distinct_pages(s);
    if pages.len() < min {
        None
    } else if exists|i: int| 0 <= i < pages.len() && count_page(s, #[trigger] pages[i]) > max {
        None
    } else if count_shared(s, distinct_fps(s), min) == 0 {
        None
    } else {
        Some((
            Seq::new(pages.len(), |i: int| page_stability_view(s, pages[i], min)),
            count_shared(s, distinct_fps(s), min),
        ))
    }
}

proof fn lemma_stable_le_total(s: Seq<(usize, Seq<char>)>, t: Seq<(usize, Seq<char>)>, p: usize, min: nat)
    ensures
        count_stable(s, t, p, min) <= count_page(t, p),
    decreases t.len(),
{
    if t.len() > 0 {
        lemma_stable_le_total(s, t.drop_last(), p, min);
    }
}

proof fn lemma_listed_page_counted(s: Seq<(usize, Seq<char>)>, p: usize)
    requires
        distinct_pages(s).contains(p),
    ensures
        count_page(s, p) >= 1,
    decreases s.len(),
{
    if s.len() > 0 {
        let prev = distinct_pages(s.drop_last());
        if prev.contains(p) {
            lemma_listed_page_counted(s.drop_last(), p);
        } else {
            let i = choose|i: int| 0 <= i < distinct_pages(s).len() && distinct_pages(s)[i] == p;
            assert(distinct_pages(s) == prev.push(s.last().0));
            if i < prev.len() {
                assert(prev[i] == p);
            }
        }
    }
}

/// For every page of a selector's stability, the page has at least one
/// match and its stable matches are at most its matches: every per-page
/// stable ratio lies between 0 and 1.
pub proof fn lemma_stability_ratios(s: Seq<(usize, Seq<char>)>, min: nat, max: nat)
    ensures
        spec_stability(s, min, max) matches Some(st) ==> forall|i: int| 0 <= i < st.0.len() ==>
            1 <= (#[trigger] st.0[i]).1 && st.0[i].2 <= st.0[i].1,
{
    if let Some(st) = spec_stability(s, min, max) {
        let pages = distinct_pages(s);
        assert forall|i: int| 0 <= i < st.0.len() implies 1 <= (#[trigger] st.0[i]).1 && st.0[i].2 <= st.0[i].1 by {
            assert(pages.contains(pages[i]));
            lemma_listed_page_counted(s, pages[i]);
            lemma_stable_le_total(s, s, pages[i], min);
        }
    }
}

pub open spec fn stability_view(st: Stability) -> (Seq<(usize, nat, nat)>, nat) {
    (
        st.pages@.map_values(|p: PageStability| (p.page, p.total as nat, p.stable as nat)),
        st.shared_fingerprints as nat,
    )
}

/// The matches of one selector: for each element it matched, the page and
/// the element's fingerprint.
pub struct SelectorStats {
    records: Vec<(usize, String)>,
}

fn contains_usize(v: &Vec<usize>, x: usize) -> (r: bool)
    ensures
        r == v@.contains(x),
{
    let mut i: usize = 0;
    while i < v.len()
        invariant
            i <= v@.len(),
            forall|t: int| 0 <= t < i ==> v@[t] != x,
        decreases v@.len() - i,
    {
        if v[i] == x {
            return true;
        }
        i = i + 1;
    }
    false
}

fn contains_string(v: &Vec<String>, x: &String) -> (r: bool)
    ensures
        r == strings_view(v@).contains(x@),
{
    let mut i: usize = 0;
    while i < v.len()
        invariant
            i <= v@.len(),
            forall|t: int| 0 <= t < i ==> strings_view(v@)[t] != x@,
        decreases v@.len() - i,
    {
        if v[i] == *x {
            assert(strings_view(v@)[i as int] == x@);
            return true;
        }
        i = i + 1;
    }
    false
}

proof fn lemma_count_page_le(s: Seq<(usize, Seq<char>)>, p: usize)
    ensures
        count_page(s, p) <= s.len(),
    decreases s.len(),
{
    if s.len() > 0 {
        lemma_count_page_le(s.drop_last(), p);
    }
}

proof fn lemma_count_stable_le(s: Seq<(usize, Seq<char>)>, t: Seq<(usize, Seq<char>)>, p: usize, min: nat)
    ensures
        count_stable(s, t, p, min) <= t.len(),
    decreases t.len(),
{
    if t.len() > 0 {
        lemma_count_stable_le(s, t.drop_last(), p, min);
    }
}

proof fn lemma_count_shared_le(s: Seq<(usize, Seq<char>)>, fps: Seq<Seq<char>>, min: nat)
    ensures
        count_shared(s, fps, min) <= fps.len(),
    decreases fps.len(),
{
    if fps.len() > 0 {
        lemma_count_shared_le(s, fps.drop_last(), min);
    }
}

proof fn lemma_fp_pages_le(s: Seq<(usize, Seq<char>)>, fp: Seq<char>)
    ensures
        fp_pages(s, fp).len() <= s.len(),
    decreases s.len(),
{
    if s.len() > 0 {
        lemma_fp_pages_le(s.drop_last(), fp);
    }
}

proof fn lemma_counts_concat(a: Seq<(usize, Seq<char>)>, b: Seq<(usize, Seq<char>)>, p: usize, fp: Seq<char>)
    ensures
        count_page(a + b, p) == count_page(a, p) + count_page(b, p),
        count_page_fp(a + b, p, fp) == count_page_fp(a, p, fp) + count_page_fp(b, p, fp),
    decreases b.len(),
{
    if b.len() == 0 {
        assert(a + b == a);
    } else {
        lemma_counts_concat(a, b.drop_last(), p, fp);
        assert((a + b).drop_last() == a + b.drop_last());
        assert((a + b).last() == b.last());
    }
}

/// Merging statistics adds, page by page, their match counts, overall and
/// per fingerprint; recording a match adds one to its page and to its
/// page and fingerprint, and leaves every other count alone.
pub proof fn lemma_stats_counts_add(a: SelectorStats, b: SelectorStats, q: usize, g: Seq<char>, p: usize, fp: Seq<char>)
    ensures
        count_page(a.view() + b.view(), p) == count_page(a.view(), p) + count_page(b.view(), p),
        count_page_fp(a.view() + b.view(), p, fp) == count_page_fp(a.view(), p, fp) + count_page_fp(b.view(), p, fp),
        count_page(a.view().push((q, g)), p) == count_page(a.view(), p) + if q == p { 1nat } else { 0nat },
        count_page_fp(a.view().push((q, g)), p, fp) == count_page_fp(a.view(), p, fp)
            + if q == p && g == fp { 1nat } else { 0nat },
{
    lemma_counts_concat(a.view(), b.view(), p, fp);
    assert(a.view().push((q, g)).drop_last() == a.view());
}

impl SelectorStats {
    pub closed spec fn view(&self) -> Seq<(usize, Seq<char>)> {
        recs_view(self.records@)
    }

    pub fn new() -> (r: Self)
        ensures
            r.view() == Seq::<(usize, Seq<char>)>::empty(),
    {
        SelectorStats { records: Vec::new() }
    }

    /// Records one match on page `page_index` with fingerprint `fingerprint`.
    pub fn record(&mut self, page_index: usize, fingerprint: &str)
        ensures
            final(self).view() == old(self).view().push((page_index, fingerprint@)),
    {
        let fp = crate::text::string_from_chars(crate::text::str_chars(fingerprint).as_slice());
        self.records.push((page_index, fp));
        assert(recs_view(self.records@) == recs_view(old(self).records@).push((page_index, fingerprint@)));
    }

    /// Adds the matches of `other`.
    pub fn merge(&mut self, other: SelectorStats)
        ensures
            final(self).view() == old(self).view() + other.view(),
    {
        let mut other = other;
        let ghost o = other.records@;
        self.records.append(&mut other.records);
        assert(recs_view(self.records@) == recs_view(old(self).records@) + recs_view(o));
    }

    /// Number of matches on page `page_index`.
    pub fn total_matches(&self, page_index: usize) -> (r: usize)
        ensures
            r == count_page(self.view(), page_index),
    {
        let mut r: usize = 0;
        let mut i: usize = 0;
        while i < self.records.len()
            invariant
                i <= self.records@.len(),
                r == count_page(recs_view(self.records@).take(i as int), page_index),
                r <= i,
            decreases self.records@.len() - i,
        {
            assert(recs_view(self.records@).take(i + 1).drop_last() == recs_view(self.records@).take(i as int));
            if self.records[i].0 == page_index {
                r = r + 1;
            }
            i = i + 1;
        }
        assert(recs_view(self.records@).take(i as int) == recs_view(self.records@));
        r
    }

    /// Number of matches on page `page_index` with fingerprint `fingerprint`.
    pub fn fingerprint_matches(&self, page_index: usize, fingerprint: &str) -> (r: usize)
        ensures
            r == count_page_fp(self.view(), page_index, fingerprint@),
    {
        let fp = crate::text::string_from_chars(crate::text::str_chars(fingerprint).as_slice());
        let mut r: usize = 0;
        let mut i: usize = 0;
        while i < self.records.len()
            invariant
                i <= self.records@.len(),
                fp@ == fingerprint@,
                r == count_page_fp(recs_view(self.records@).take(i as int), page_index, fingerprint@),
                r <= i,
            decreases self.records@.len() - i,
        {
            assert(recs_view(self.records@).take(i + 1).drop_last() == recs_view(self.records@).take(i as int));
            assert(recs_view(self.records@)[i as int] == (self.records@[i as int].0, self.records@[i as int].1@));
            if self.records[i].0 == page_index && self.records[i].1 == fp {
                r = r + 1;
            }
            i = i + 1;
        }
        assert(recs_view(self.records@).take(i as int) == recs_view(self.records@));
        r
    }

    fn distinct_pages_exec(&self) -> (r: Vec<usize>)
        ensures
            r@ == distinct_pages(self.view()),
    {
        let mut r: Vec<usize> = Vec::new();
        let mut i: usize = 0;
        while i < self.records.len()
            invariant
                i <= self.records@.len(),
                r@ == distinct_pages(recs_view(self.records@).take(i as int)),
            decreases self.records@.len() - i,
        {
            assert(recs_view(self.records@).take(i + 1).drop_last() == recs_view(self.records@).take(i as int));
            let p = self.records[i].0;
            if !contains_usize(&r, p) {
                r.push(p);
            }
            i = i + 1;
        }
        assert(recs_view(self.records@).take(i as int) == recs_view(self.records@));
        r
    }

    fn distinct_fps_exec(&self) -> (r: Vec<String>)
        ensures
            strings_view(r@) == distinct_fps(self.view()),
    {
        let mut r: Vec<String> = Vec::new();
        let mut i: usize = 0;
        while i < self.records.len()
            invariant
                i <= self.records@.len(),
                strings_view(r@) == distinct_fps(recs_view(self.records@).take(i as int)),
            decreases self.records@.len() - i,
        {
            assert(recs_view(self.records@).take(i + 1).drop_last() == recs_view(self.records@).take(i as int));
            let fp = &self.records[i].1;
            if !contains_string(&r, fp) {
                let c = fp.clone();
                r.push(c);
                assert(strings_view(r@) == strings_view(r@.drop_last()).push(fp@));
            }
            i = i + 1;
        }
        assert(recs_view(self.records@).take(i as int) == recs_view(self.records@));
        r
    }

    /// Number of pages with a match with fingerprint `fp`.
    fn fp_page_count(&self, fp: &String) -> (r: usize)
        ensures
            r == fp_pages(self.view(), fp@).len(),
    {
        let mut pages: Vec<usize> = Vec::new();
        let mut i: usize = 0;
        while i < self.records.len()
            invariant
                i <= self.records@.len(),
                pages@ == fp_pages(recs_view(self.records@).take(i as int), fp@),
            decreases self.records@.len() - i,
        {
            assert(recs_view(self.records@).take(i + 1).drop_last() == recs_view(self.records@).take(i as int));
            assert(recs_view(self.records@)[i as int] == (self.records@[i as int].0, self.records@[i as int].1@));
            if self.records[i].1 == *fp && !contains_usize(&pages, self.records[i].0) {
                pages.push(self.records[i].0);
            }
            i = i + 1;
        }
        assert(recs_view(self.records@).take(i as int) == recs_view(self.records@));
        pages.len()
    }

    /// The stability of this selector's matches (see `spec_stability`).
    pub fn stability(&self, min_shared_pages: usize, max_matches_per_page: usize) -> (r: Option<Stability>)
        ensures
            match r {
                None => spec_stability(self.view(), min_shared_pages as nat, max_matches_per_page as nat) is None,
                Some(st) => spec_stability(self.view(), min_shared_pages as nat, max_matches_per_page as nat)
                    == Some(stability_view(st)),
            },
    {
        let ghost s = self.view();
        let ghost min = min_shared_pages as nat;
        let pages = self.distinct_pages_exec();
        if pages.len() < min_shared_pages {
            return None;
        }
        let mut totals: Vec<usize> = Vec::new();
        let mut i: usize = 0;
        while i < pages.len()
            invariant
                i <= pages@.len(),
                s == self.view(),
                pages@ == distinct_pages(s),
                totals@.len() == i,
                forall|t: int| 0 <= t < i ==> totals@[t] == count_page(s, #[trigger] pages@[t]),
                forall|t: int| 0 <= t < i ==> count_page(s, #[trigger] pages@[t]) <= max_matches_per_page,
            decreases pages@.len() - i,
        {
            let c = self.total_matches(pages[i]);
            if c > max_matches_per_page {
                assert(count_page(s, pages@[i as int]) > max_matches_per_page);
                return None;
            }
            totals.push(c);
            i = i + 1;
        }
        let fps = self.distinct_fps_exec();
        let mut shared: usize = 0;
        let mut j: usize = 0;
        while j < fps.len()
            invariant
                j <= fps@.len(),
                s == self.view(),
                min == min_shared_pages as nat,
                strings_view(fps@) == distinct_fps(s),
                shared == count_shared(s, strings_view(fps@).take(j as int), min),
                shared <= j,
            decreases fps@.len() - j,
        {
            assert(strings_view(fps@).take(j + 1).drop_last() == strings_view(fps@).take(j as int));
            assert(strings_view(fps@).take(j + 1).last() == fps@[j as int]@);
            let c = self.fp_page_count(&fps[j]);
            let ghost tk = strings_view(fps@).take(j + 1);
            assert(count_shared(s, tk, min) == count_shared(s, tk.drop_last(), min)
                + if is_shared(s, tk.last(), min) { 1nat } else { 0nat });
            if c >= min_shared_pages {
                shared = shared + 1;
            }
            j = j + 1;
        }
        assert(strings_view(fps@).take(j as int) == strings_view(fps@));
        if shared == 0 {
            return None;
        }
        let mut out: Vec<PageStability> = Vec::new();
        let mut k: usize = 0;
        while k < pages.len()
            invariant
                k <= pages@.len(),
                s == self.view(),
                min == min_shared_pages as nat,
                pages@ == distinct_pages(s),
                totals@.len() == pages@.len(),
                forall|t: int| 0 <= t < pages@.len() ==> totals@[t] == count_page(s, #[trigger] pages@[t]),
                out@.len() == k,
                forall|t: int| 0 <= t < k ==> (#[trigger] out@[t]).page == pages@[t]
                    && out@[t].total == totals@[t]
                    && out@[t].stable == count_stable(s, s, pages@[t], min),
            decreases pages@.len() - k,
        {
            let p = pages[k];
            let mut stable: usize = 0;
            let mut i: usize = 0;
            while i < self.records.len()
                invariant
                    i <= self.records@.len(),
                    s == self.view(),
                    s == recs_view(self.records@),
                    min == min_shared_pages as nat,
                    stable == count_stable(s, s.take(i as int), p, min),
                    stable <= i,
                decreases self.records@.len() - i,
            {
                assert(s.take(i + 1).drop_last() == s.take(i as int));
                assert(s.take(i + 1).last() == s[i as int]);
                assert(s[i as int] == (self.records@[i as int].0, self.records@[i as int].1@));
                if self.records[i].0 == p {
                    let c = self.fp_page_count(&self.records[i].1);
                    if c >= min_shared_pages {
                        stable = stable + 1;
                    }
                }
                i = i + 1;
            }
            assert(s.take(i as int) == s);
            out.push(PageStability { page: p, total: totals[k], stable });
            k = k + 1;
        }
        let st = Stability { pages: out, shared_fingerprints: shared };
        proof {
            assert(!(exists|i: int| 0 <= i < pages@.len() && count_page(s, #[trigger] pages@[i]) > max_matches_per_page));
            let v = stability_view(st);
            assert(v.0 =~= Seq::new(pages@.len(), |i: int| page_stability_view(s, pages@[i], min)));
        }
        Some(st)
    }
}


pub open spec fn sel_records_view(v: Seq<(String, usize)>) -> Seq<(Seq<char>, usize)> {
    v.map_values(|r: (String, usize)| (r.0@, r.1))
}

/// The distinct values of `s`, in order of first occurrence.
pub open spec fn distinct_usizes(s: Seq<usize>) -> Seq<usize>
    decreases s.len(),
{
    if s.len() == 0 {
        Seq::empty()
    } else {
        let prev = distinct_usizes(s.drop_last());
        if prev.contains(s.last()) { prev } else { prev.push(s.last()) }
    }
}

/// The distinct selectors recorded, in order of first record.
pub open spec fn distinct_selectors(r: Seq<(Seq<char>, usize)>) -> Seq<Seq<char>>
    decreases r.len(),
{
    if r.len() == 0 {
        Seq::empty()
    } else {
        let prev = distinct_selectors(r.drop_last());
        if prev.contains(r.last().0) { prev } else { prev.push(r.last().0) }
    }
}

/// The distinct pages on which selector `sel` was recorded, in order.
pub open spec fn selector_pages(r: Seq<(Seq<char>, usize)>, sel: Seq<char>) -> Seq<usize>
    decreases r.len(),
{
    if r.len() == 0 {
        Seq::empty()
    } else {
        let prev = selector_pages(r.drop_last(), sel);
        if r.last().0 == sel && !prev.contains(r.last().1) { prev.push(r.last().1) } else { prev }
    }
}

/// A selector can stand in for a snippet when it was recorded with it on
/// at least `min` distinct pages.
pub open spec fn promotable(r: Seq<(Seq<char>, usize)>, sel: Seq<char>, min: nat) -> bool {
    distinct_selectors(r).contains(sel) && selector_pages(r, sel).len() >= min
}

/// The key by which selectors are preferred: higher priority first, then
/// lexicographically smaller.
pub open spec fn priority_key(sel: Seq<char>) -> (nat, nat, Seq<char>) {
    (spec_selector_priority(sel), 0, sel)
}

/// `b` is the preferred promotable selector of `r`.
pub open spec fn is_best(r: Seq<(Seq<char>, usize)>, b: Seq<char>, min: nat) -> bool {
    promotable(r, b, min) && forall|s: Seq<char>| promotable(r, s, min) && s != b
        ==> ranks_before(priority_key(b), priority_key(s))
}

/// The preferred promotable selector of `r`, if any.
pub open spec fn spec_best(r: Seq<(Seq<char>, usize)>, min: nat) -> Option<Seq<char>> {
    if exists|b: Seq<char>| is_best(r, b, min) {
        Some(choose|b: Seq<char>| is_best(r, b, min))
    } else {
        None
    }
}

pub proof fn lemma_best_unique(r: Seq<(Seq<char>, usize)>, a: Seq<char>, b: Seq<char>, min: nat)
    requires
        is_best(r, a, min),
        is_best(r, b, min),
    ensures
        a == b,
{
    if a != b {
        assert(ranks_before(priority_key(a), priority_key(b)));
        assert(ranks_before(priority_key(b), priority_key(a)));
        crate::learn::ranking::lemma_ranks_asymmetric(priority_key(a), priority_key(b));
    }
}

/// A snippet seen on several pages: the pages it was seen on, the selectors
/// of its element on each page, and its longest serialization.
pub struct SnippetCandidate {
    pages: Vec<usize>,
    selectors: Vec<(String, usize)>,
    snippet: String,
}

impl SnippetCandidate {
    pub closed spec fn pages_view(&self) -> Seq<usize> {
        self.pages@
    }

    pub closed spec fn selectors_view(&self) -> Seq<(Seq<char>, usize)> {
        sel_records_view(self.selectors@)
    }

    pub closed spec fn snippet_view(&self) -> Seq<char> {
        self.snippet@
    }

    pub fn new() -> (r: Self)
        ensures
            r.pages_view() == Seq::<usize>::empty(),
            r.selectors_view() == Seq::<(Seq<char>, usize)>::empty(),
            r.snippet_view() == Seq::<char>::empty(),
    {
        SnippetCandidate { pages: Vec::new(), selectors: Vec::new(), snippet: String::new() }
    }

    /// The longest snippet recorded (the first of that length).
    pub fn snippet(&self) -> (r: &String)
        ensures
            r@ == self.snippet_view(),
    {
        &self.snippet
    }

    /// Records a sighting on page `page_index`, with the element's
    /// serialization and its selector candidates.
    pub fn record(&mut self, page_index: usize, snippet: String, selectors: &Vec<String>)
        ensures
            final(self).pages_view() == old(self).pages_view().push(page_index),
            final(self).selectors_view() == old(self).selectors_view()
                + strings_view(selectors@).map_values(|s: Seq<char>| (s, page_index)),
            final(self).snippet_view() == if utf8_len(snippet@) > utf8_len(old(self).snippet_view()) {
                snippet@
            } else {
                old(self).snippet_view()
            },
    {
        self.pages.push(page_index);
        let ghost start = sel_records_view(self.selectors@);
        let mut i: usize = 0;
        while i < selectors.len()
            invariant
                i <= selectors@.len(),
                start == sel_records_view(old(self).selectors@),
                sel_records_view(self.selectors@) == start
                    + strings_view(selectors@).take(i as int).map_values(|s: Seq<char>| (s, page_index)),
                self.pages@ == old(self).pages@.push(page_index),
                self.snippet == old(self).snippet,
            decreases selectors@.len() - i,
        {
            let ghost before = self.selectors@;
            let c = selectors[i].clone();
            self.selectors.push((c, page_index));
            assert(sel_records_view(self.selectors@) =~= sel_records_view(before).push((selectors@[i as int]@, page_index)));
            assert(strings_view(selectors@).take(i + 1) =~= strings_view(selectors@).take(i as int).push(selectors@[i as int]@));
            assert(strings_view(selectors@).take(i + 1).map_values(|s: Seq<char>| (s, page_index))
                =~= strings_view(selectors@).take(i as int).map_values(|s: Seq<char>| (s, page_index)).push((selectors@[i as int]@, page_index)));
            assert(sel_records_view(self.selectors@) =~= start
                + strings_view(selectors@).take(i + 1).map_values(|s: Seq<char>| (s, page_index)));
            i = i + 1;
        }
        assert(strings_view(selectors@).take(i as int) == strings_view(selectors@));
        if byte_len(snippet.as_str()) > byte_len(self.snippet.as_str()) {
            self.snippet = snippet;
        }
    }

    /// Number of distinct pages the snippet was seen on.
    pub fn pages_seen_count(&self) -> (r: usize)
        ensures
            r == distinct_usizes(self.pages_view()).len(),
    {
        let mut seen: Vec<usize> = Vec::new();
        let mut i: usize = 0;
        while i < self.pages.len()
            invariant
                i <= self.pages@.len(),
                seen@ == distinct_usizes(self.pages@.take(i as int)),
            decreases self.pages@.len() - i,
        {
            assert(self.pages@.take(i + 1).drop_last() == self.pages@.take(i as int));
            if !contains_usize(&seen, self.pages[i]) {
                seen.push(self.pages[i]);
            }
            i = i + 1;
        }
        assert(self.pages@.take(i as int) == self.pages@);
        seen.len()
    }

    /// Whether `sel` was recorded as a selector of the snippet's element.
    pub fn has_selector(&self, sel: &String) -> (r: bool)
        ensures
            r == distinct_selectors(self.selectors_view()).contains(sel@),
    {
        let ds = self.distinct_selectors_exec();
        contains_string(&ds, sel)
    }

    fn distinct_selectors_exec(&self) -> (r: Vec<String>)
        ensures
            strings_view(r@) == distinct_selectors(self.selectors_view()),
    {
        let ghost v = sel_records_view(self.selectors@);
        let mut r: Vec<String> = Vec::new();
        let mut i: usize = 0;
        while i < self.selectors.len()
            invariant
                i <= self.selectors@.len(),
                v == sel_records_view(self.selectors@),
                strings_view(r@) == distinct_selectors(v.take(i as int)),
            decreases self.selectors@.len() - i,
        {
            assert(v.take(i + 1).drop_last() == v.take(i as int));
            let s = &self.selectors[i].0;
            if !contains_string(&r, s) {
                r.push(s.clone());
                assert(strings_view(r@) == strings_view(r@.drop_last()).push(s@));
            }
            i = i + 1;
        }
        assert(v.take(i as int) == v);
        r
    }

    fn selector_page_count(&self, sel: &String) -> (r: usize)
        ensures
            r == selector_pages(self.selectors_view(), sel@).len(),
    {
        let ghost v = sel_records_view(self.selectors@);
        let mut pages: Vec<usize> = Vec::new();
        let mut i: usize = 0;
        while i < self.selectors.len()
            invariant
                i <= self.selectors@.len(),
                v == sel_records_view(self.selectors@),
                pages@ == selector_pages(v.take(i as int), sel@),
            decreases self.selectors@.len() - i,
        {
            assert(v.take(i + 1).drop_last() == v.take(i as int));
            assert(v[i as int] == (self.selectors@[i as int].0@, self.selectors@[i as int].1));
            if self.selectors[i].0 == *sel && !contains_usize(&pages, self.selectors[i].1) {
                pages.push(self.selectors[i].1);
            }
            i = i + 1;
        }
        assert(v.take(i as int) == v);
        pages.len()
    }

    /// The preferred selector among those recorded on at least
    /// `min_shared_pages` distinct pages: highest priority, then
    /// lexicographically smallest.
    pub fn best_promotable_selector(&self, min_shared_pages: usize) -> (r: Option<String>)
        ensures
            match r {
                None => forall|s: Seq<char>| !promotable(self.selectors_view(), s, min_shared_pages as nat),
                Some(b) => promotable(self.selectors_view(), b@, min_shared_pages as nat)
                    && forall|s: Seq<char>| promotable(self.selectors_view(), s, min_shared_pages as nat)
                        && s != b@ ==> ranks_before(priority_key(b@), priority_key(s)),
            },
            match r {
                None => spec_best(self.selectors_view(), min_shared_pages as nat) is None,
                Some(b) => spec_best(self.selectors_view(), min_shared_pages as nat) == Some(b@),
            },
    {
        let ghost v = self.selectors_view();
        let ghost min = min_shared_pages as nat;
        let ds = self.distinct_selectors_exec();
        let mut best: Option<Ranked> = None;
        let mut i: usize = 0;
        while i < ds.len()
            invariant
                i <= ds@.len(),
                v == self.selectors_view(),
                min == min_shared_pages as nat,
                strings_view(ds@) == distinct_selectors(v),
                match best {
                    None => forall|t: int| 0 <= t < i ==> !promotable(v, #[trigger] ds@[t]@, min),
                    Some(b) => b.minor == 0 && b.major == spec_selector_priority(b.text@)
                        && promotable(v, b.text@, min)
                        && forall|t: int| 0 <= t < i && promotable(v, #[trigger] ds@[t]@, min) && ds@[t]@ != b.text@
                            ==> ranks_before(priority_key(b.text@), priority_key(ds@[t]@)),
                },
            decreases ds@.len() - i,
        {
            let s = &ds[i];
            assert(strings_view(ds@)[i as int] == s@);
            let c = self.selector_page_count(s);
            if c >= min_shared_pages {
                let p = selector_priority(s.as_str());
                let cand = Ranked { major: p as u64, minor: 0, text: s.clone() };
                match &best {
                    None => {
                        best = Some(cand);
                    },
                    Some(b) => {
                        if ranks_before_exec(&cand, b) {
                            proof {
                                let bk = priority_key(b.text@);
                                let ck = priority_key(s@);
                                assert forall|t: int| 0 <= t < i + 1 && promotable(v, #[trigger] ds@[t]@, min) && ds@[t]@ != s@
                                    implies ranks_before(ck, priority_key(ds@[t]@)) by {
                                    if ds@[t]@ == b.text@ {
                                    } else if t < i {
                                        lemma_ranks_transitive(ck, bk, priority_key(ds@[t]@));
                                    }
                                }
                            }
                            best = Some(cand);
                        } else {
                            proof {
                                let bk = priority_key(b.text@);
                                let ck = priority_key(s@);
                                if s@ != b.text@ {
                                    lemma_ranks_total(bk, ck);
                                }
                            }
                        }
                    },
                }
            }
            i = i + 1;
        }
        proof {
            assert forall|s: Seq<char>| #[trigger] promotable(v, s, min) implies
                exists|t: int| 0 <= t < ds@.len() && ds@[t]@ == s by {
                let t = choose|t: int| 0 <= t < strings_view(ds@).len() && strings_view(ds@)[t] == s;
                assert(ds@[t]@ == s);
            }
        }
        match best {
            None => {
                proof {
                    if exists|b: Seq<char>| is_best(v, b, min) {
                        let b = choose|b: Seq<char>| is_best(v, b, min);
                        assert(promotable(v, b, min));
                    }
                }
                None
            },
            Some(b) => {
                proof {
                    assert(is_best(v, b.text@, min));
                    let c = choose|c: Seq<char>| is_best(v, c, min);
                    lemma_best_unique(v, b.text@, c, min);
                }
                Some(b.text)
            },
        }
    }
}

} // verus!
