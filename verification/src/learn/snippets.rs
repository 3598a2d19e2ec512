//! Snippet stage of learning: per-path samples of the pages and the tests
//! that decide whether a path holds shared boilerplate.

use vstd::prelude::*;
use crate::learn::selectors::{dedup_seqs, dedup_strings};
use crate::learn::types::strings_view;
use crate::text::{byte_len, utf8_len, str_chars, ascii_lower, ascii_lower_char};

verus! {

/// What one page holds at a path: its text, the fingerprint of that text,
/// the element's serialization and its selector candidates.
pub struct PathNodeSample {
    pub page_index: usize,
    pub text: String,
    pub fingerprint: String,
    pub snippet: String,
    pub selectors: Vec<String>,
}

pub struct SampleView {
    pub page: usize,
    pub text: Seq<char>,
    pub fp: Seq<char>,
    pub snippet: Seq<char>,
    pub sels: Seq<Seq<char>>,
}

impl View for PathNodeSample {
    type V = SampleView;

    open spec fn view(&self) -> SampleView {
        SampleView {
            page: self.page_index,
            text: self.text@,
            fp: self.fingerprint@,
            snippet: self.snippet@,
            sels: strings_view(self.selectors@),
        }
    }
}

pub open spec fn samples_view(v: Seq<PathNodeSample>) -> Seq<SampleView> {
    v.map_values(|s: PathNodeSample| s@)
}

/// Selector `s` is a candidate of every sample.
pub open spec fn in_all_samples(samples: Seq<SampleView>, s: Seq<char>) -> bool {
    forall|i: int| 0 <= i < samples.len() ==> (#[trigger] samples[i]).sels.contains(s)
}

pub open spec fn keep_in_all(samples: Seq<SampleView>, c: Seq<Seq<char>>) -> Seq<Seq<char>>
    decreases c.len(),
{
    if c.len() == 0 {
        Seq::empty()
    } else if in_all_samples(samples, c.last()) {
        keep_in_all(samples, c.drop_last()).push(c.last())
    } else {
        keep_in_all(samples, c.drop_last())
    }
}

/// The selectors that every sample has, in the order of the first sample;
/// none when there are no samples.
pub open spec fn spec_shared_selectors(samples: Seq<SampleView>) -> Seq<Seq<char>> {
    if samples.len() == 0 {
        Seq::empty()
    } else {
        keep_in_all(samples, dedup_seqs(samples[0].sels))
    }
}

fn strings_contain(v: &Vec<String>, x: &String) -> (r: bool)
    ensures
        r == strings_view(v@).contains(x@),
{
    let mut i: usize = 0;
    while i < v.len()
        invariant
            i <= v@.len(),
            forall|t: int| 0 <= t < i ==> v@[t]@ != x@,
        decreases v@.len() - i,
    {
        if v[i] == *x {
            assert(strings_view(v@)[i as int] == x@);
            return true;
        }
        i = i + 1;
    }
    proof {
        if strings_view(v@).contains(x@) {
            let t = choose|t: int| 0 <= t < strings_view(v@).len() && strings_view(v@)[t] == x@;
            assert(v@[t]@ == x@);
        }
    }
    false
}

/// The selectors shared by all samples.
pub fn shared_selectors_for_samples(samples: &Vec<PathNodeSample>) -> (r: Vec<String>)
    ensures
        strings_view(r@) == spec_shared_selectors(samples_view(samples@)),
{
    let ghost sv = samples_view(samples@);
    if samples.len() == 0 {
        return Vec::new();
    }
    let first = dedup_strings(samples[0].selectors.clone());
    assert(sv[0] == samples@[0]@);
    let mut out: Vec<String> = Vec::new();
    let mut i: usize = 0;
    while i < first.len()
        invariant
            i <= first@.len(),
            sv == samples_view(samples@),
            samples@.len() > 0,
            strings_view(first@) == dedup_seqs(sv[0].sels),
            strings_view(out@) == keep_in_all(sv, strings_view(first@).take(i as int)),
        decreases first@.len() - i,
    {
        assert(strings_view(first@).take(i + 1).drop_last() == strings_view(first@).take(i as int));
        assert(strings_view(first@).take(i + 1).last() == first@[i as int]@);
        let mut all = true;
        let mut j: usize = 0;
        while j < samples.len()
            invariant
                i < first@.len(),
                j <= samples@.len(),
                sv == samples_view(samples@),
                all == forall|t: int| 0 <= t < j ==> (#[trigger] sv[t]).sels.contains(first@[i as int]@),
            decreases samples@.len() - j,
        {
            assert(sv[j as int] == samples@[j as int]@);
            if !strings_contain(&samples[j].selectors, &first[i]) {
                all = false;
            }
            j = j + 1;
        }
        if all {
            let ghost ov = strings_view(out@);
            out.push(first[i].clone());
            assert(strings_view(out@) =~= ov.push(first@[i as int]@));
        }
        i = i + 1;
    }
    assert(strings_view(first@).take(i as int) == strings_view(first@));
    out
}

/// Number of samples whose fingerprint is `fp`.
pub open spec fn fp_count(samples: Seq<SampleView>, fp: Seq<char>) -> nat
    decreases samples.len(),
{
    if samples.len() == 0 {
        0
    } else {
        fp_count(samples.drop_last(), fp) + if samples.last().fp == fp { 1nat } else { 0nat }
    }
}

/// The largest number of samples that share one fingerprint.
pub open spec fn max_fp_count(samples: Seq<SampleView>, all: Seq<SampleView>) -> nat
    decreases samples.len(),
{
    if samples.len() == 0 {
        0
    } else {
        let prev = max_fp_count(samples.drop_last(), all);
        let c = fp_count(all, samples.last().fp);
        if c > prev { c } else { prev }
    }
}

/// Index of the first sample whose fingerprint is shared by `c` samples.
pub open spec fn first_with_count(samples: Seq<SampleView>, c: nat) -> int
    decreases samples.len(),
{
    if samples.len() == 0 {
        0
    } else if fp_count(samples, samples[0].fp) == c {
        0
    } else {
        1 + first_with_count_from(samples, 1, c)
    }
}

pub open spec fn first_with_count_from(samples: Seq<SampleView>, start: int, c: nat) -> int
    decreases samples.len() - start,
{
    if start >= samples.len() || start < 0 {
        0
    } else if fp_count(samples, samples[start].fp) == c {
        0
    } else {
        1 + first_with_count_from(samples, start + 1, c)
    }
}

/// The fingerprint shared by the most samples, if at least `min` share it;
/// among equally shared fingerprints, the one met first.
pub open spec fn spec_shared_fingerprint(samples: Seq<SampleView>, min: nat) -> Option<Seq<char>> {
    let m = max_fp_count(samples, samples);
    if samples.len() > 0 && m >= min {
        Some(samples[first_index_with_count(samples, m)].fp)
    } else {
        None
    }
}

/// Index of the first sample whose fingerprint count is `c`, or the length.
pub open spec fn first_index_with_count(samples: Seq<SampleView>, c: nat) -> int {
    first_index_from(samples, 0, c)
}

pub open spec fn first_index_from(samples: Seq<SampleView>, start: int, c: nat) -> int
    decreases samples.len() - start,
{
    if start < 0 || start >= samples.len() {
        samples.len() as int
    } else if fp_count(samples, samples[start].fp) == c {
        start
    } else {
        first_index_from(samples, start + 1, c)
    }
}

fn fp_count_exec(samples: &Vec<PathNodeSample>, fp: &String) -> (r: usize)
    ensures
        r == fp_count(samples_view(samples@), fp@),
        r <= samples@.len(),
{
    let ghost sv = samples_view(samples@);
    let mut r: usize = 0;
    let mut i: usize = 0;
    while i < samples.len()
        invariant
            i <= samples@.len(),
            sv == samples_view(samples@),
            r == fp_count(sv.take(i as int), fp@),
            r <= i,
        decreases samples@.len() - i,
    {
        assert(sv.take(i + 1).drop_last() == sv.take(i as int));
        assert(sv.take(i + 1).last() == samples@[i as int]@);
        if samples[i].fingerprint == *fp {
            r = r + 1;
        }
        i = i + 1;
    }
    assert(sv.take(i as int) == sv);
    r
}

proof fn lemma_max_attained(samples: Seq<SampleView>, all: Seq<SampleView>)
    requires
        samples.len() > 0,
    ensures
        exists|i: int| 0 <= i < samples.len() && fp_count(all, samples[i].fp) == max_fp_count(samples, all),
    decreases samples.len(),
{
    if samples.len() > 1 {
        lemma_max_attained(samples.drop_last(), all);
        let i = choose|i: int| 0 <= i < samples.drop_last().len()
            && fp_count(all, samples.drop_last()[i].fp) == max_fp_count(samples.drop_last(), all);
        assert(samples[i] == samples.drop_last()[i]);
    } else {
        assert(samples.drop_last().len() == 0);
        assert(max_fp_count(samples.drop_last(), all) == 0);
        assert(samples.last() == samples[0]);
        assert(fp_count(all, samples[0].fp) == max_fp_count(samples, all));
    }
}

proof fn lemma_first_index_found(samples: Seq<SampleView>, start: int, c: nat, w: int)
    requires
        0 <= start <= w < samples.len(),
        fp_count(samples, samples[w].fp) == c,
    ensures
        start <= first_index_from(samples, start, c) <= w,
        fp_count(samples, samples[first_index_from(samples, start, c)].fp) == c,
    decreases samples.len() - start,
{
    if fp_count(samples, samples[start].fp) != c {
        lemma_first_index_found(samples, start + 1, c, w);
    }
}

/// The fingerprint shared by the most samples, when at least
/// `min_shared_pages` share it.
pub fn shared_fingerprint_for_samples(samples: &Vec<PathNodeSample>, min_shared_pages: usize) -> (r: Option<String>)
    ensures
        match r {
            Some(f) => spec_shared_fingerprint(samples_view(samples@), min_shared_pages as nat) == Some(f@),
            None => spec_shared_fingerprint(samples_view(samples@), min_shared_pages as nat) is None,
        },
{
    let ghost sv = samples_view(samples@);
    if samples.len() == 0 {
        return None;
    }
    let mut counts: Vec<usize> = Vec::new();
    let mut best: usize = 0;
    let mut i: usize = 0;
    while i < samples.len()
        invariant
            i <= samples@.len(),
            sv == samples_view(samples@),
            counts@.len() == i,
            forall|t: int| 0 <= t < i ==> counts@[t] == fp_count(sv, #[trigger] sv[t].fp),
            best == max_fp_count(sv.take(i as int), sv),
        decreases samples@.len() - i,
    {
        assert(sv.take(i + 1).drop_last() == sv.take(i as int));
        assert(sv.take(i + 1).last() == sv[i as int]);
        assert(sv[i as int] == samples@[i as int]@);
        let c = fp_count_exec(samples, &samples[i].fingerprint);
        counts.push(c);
        if c > best {
            best = c;
        }
        i = i + 1;
    }
    assert(sv.take(i as int) == sv);
    if best < min_shared_pages {
        return None;
    }
    proof {
        lemma_max_attained(sv, sv);
    }
    let mut k: usize = 0;
    while k < samples.len()
        invariant
            k <= samples@.len(),
            sv == samples_view(samples@),
            counts@.len() == samples@.len(),
            forall|t: int| 0 <= t < samples@.len() ==> counts@[t] == fp_count(sv, #[trigger] sv[t].fp),
            best == max_fp_count(sv, sv),
            best >= min_shared_pages,
            samples@.len() > 0,
            first_index_with_count(sv, best as nat) == first_index_from(sv, k as int, best as nat),
            exists|w: int| k <= w < sv.len() && fp_count(sv, sv[w].fp) == best,
        decreases samples@.len() - k,
    {
        if counts[k] == best {
            assert(sv[k as int] == samples@[k as int]@);
            assert(first_index_from(sv, k as int, best as nat) == k);
            return Some(samples[k].fingerprint.clone());
        }
        assert(first_index_from(sv, k as int, best as nat) == first_index_from(sv, k + 1, best as nat));
        let ghost w = choose|w: int| k <= w < sv.len() && fp_count(sv, sv[w].fp) == best;
        assert(w != k);
        k = k + 1;
    }
    assert(false);
    None
}

/// Whether `needle` occurs in `hay` at position `i`.
pub open spec fn occurs_at(hay: Seq<char>, needle: Seq<char>, i: int) -> bool {
    0 <= i && i + needle.len() <= hay.len() && hay.subrange(i, i + needle.len() as int) == needle
}

/// Whether `needle` occurs in `hay`.
pub open spec fn seq_contains_sub(hay: Seq<char>, needle: Seq<char>) -> bool {
    exists|i: int| occurs_at(hay, needle, i)
}

/// Naive substring search.
pub fn contains_sub(hay: &Vec<char>, needle: &Vec<char>) -> (r: bool)
    ensures
        r == seq_contains_sub(hay@, needle@),
{
    let mut i: usize = 0;
    while i <= hay.len() && needle.len() <= hay.len() - i
        invariant
            i <= hay@.len() + 1,
            forall|t: int| 0 <= t < i ==> !occurs_at(hay@, needle@, t),
        decreases hay@.len() + 1 - i,
    {
        let mut j: usize = 0;
        let mut ok = true;
        while j < needle.len()
            invariant
                i + needle@.len() <= hay@.len(),
                j <= needle@.len(),
                ok == forall|t: int| 0 <= t < j ==> hay@[i + t] == needle@[t],
            decreases needle@.len() - j,
        {
            assert(i + j < hay@.len());
            assert(hay@.len() == hay.len());
            let idx: usize = i + j;
            if hay[idx] != needle[j] {
                ok = false;
            }
            j = j + 1;
        }
        if ok {
            assert(hay@.subrange(i as int, i + needle@.len()) == needle@);
            assert(occurs_at(hay@, needle@, i as int));
            return true;
        }
        proof {
            if occurs_at(hay@, needle@, i as int) {
                let t = choose|t: int| 0 <= t < needle@.len() && hay@[i + t] != needle@[t];
                assert(hay@.subrange(i as int, i + needle@.len())[t] == needle@[t]);
            }
        }
        i = i + 1;
    }
    proof {
        assert forall|t: int| !occurs_at(hay@, needle@, t) by {
            if occurs_at(hay@, needle@, t) {
                assert(t < i);
            }
        }
    }
    false
}

pub open spec fn ascii_lower_seq(s: Seq<char>) -> Seq<char> {
    s.map_values(|c: char| ascii_lower(c))
}

pub fn ascii_lowercase_chars(s: &Vec<char>) -> (r: Vec<char>)
    ensures
        r@ == ascii_lower_seq(s@),
{
    let mut out: Vec<char> = Vec::new();
    let mut i: usize = 0;
    while i < s.len()
        invariant
            i <= s@.len(),
            out@ == ascii_lower_seq(s@.take(i as int)),
        decreases s@.len() - i,
    {
        out.push(ascii_lower_char(s[i]));
        assert(ascii_lower_seq(s@.take(i + 1)) =~= ascii_lower_seq(s@.take(i as int)).push(ascii_lower(s@[i as int])));
        i = i + 1;
    }
    assert(s@.take(i as int) == s@);
    out
}

/// Length bounds, in bytes, of the text of a boilerplate snippet.
pub struct SnippetLimits {
    pub min_snippet_text_length: usize,
    pub max_snippet_text_length: usize,
}

/// Text qualifies as boilerplate when its byte length lies within the
/// limits and, ignoring ASCII case, it contains one of the patterns.
pub open spec fn spec_is_boilerplate_text(text: Seq<char>, patterns: Seq<Seq<char>>, min: nat, max: nat) -> bool {
    min <= utf8_len(text) <= max
        && exists|i: int| 0 <= i < patterns.len()
            && seq_contains_sub(ascii_lower_seq(text), ascii_lower_seq(#[trigger] patterns[i]))
}

pub fn is_boilerplate_text_candidate(text: &str, patterns: &Vec<String>, limits: &SnippetLimits) -> (r: bool)
    ensures
        r == spec_is_boilerplate_text(text@, strings_view(patterns@),
            limits.min_snippet_text_length as nat, limits.max_snippet_text_length as nat),
{
    let len = byte_len(text);
    if len < limits.min_snippet_text_length || len > limits.max_snippet_text_length {
        return false;
    }
    let lower = ascii_lowercase_chars(&str_chars(text));
    let mut i: usize = 0;
    while i < patterns.len()
        invariant
            i <= patterns@.len(),
            len == utf8_len(text@),
            limits.min_snippet_text_length <= len <= limits.max_snippet_text_length,
            lower@ == ascii_lower_seq(text@),
            forall|t: int| 0 <= t < i ==> !seq_contains_sub(lower@, ascii_lower_seq(#[trigger] strings_view(patterns@)[t])),
        decreases patterns@.len() - i,
    {
        let p = ascii_lowercase_chars(&str_chars(patterns[i].as_str()));
        assert(strings_view(patterns@)[i as int] == patterns@[i as int]@);
        if contains_sub(&lower, &p) {
            assert(seq_contains_sub(ascii_lower_seq(text@), ascii_lower_seq(strings_view(patterns@)[i as int])));
            assert(utf8_len(text@) == len);
            assert(spec_is_boilerplate_text(text@, strings_view(patterns@),
                limits.min_snippet_text_length as nat, limits.max_snippet_text_length as nat));
            return true;
        }
        i = i + 1;
    }
    false
}

} // verus!
