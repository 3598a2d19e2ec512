//! Text fingerprints used to compare element contents across pages.

use vstd::prelude::*;
use crate::text::{
    str_chars, string_from_chars, ascii_lower_char, ascii_lower, is_ascii_alpha, is_ascii_digit, join_spaced,
    lemma_join_push, words_state,
};

verus! {

/// Maximum number of words kept in a text fingerprint.
pub const MAX_FINGERPRINT_WORDS: usize = 32;

/// The character a fingerprint keeps for `c`: lowercased ASCII letters,
/// `#` for ASCII digits, and a separator (space) for everything else.
pub open spec fn fingerprint_char(c: char) -> char {
    if is_ascii_alpha(c) {
        ascii_lower(c)
    } else if is_ascii_digit(c) {
        '#'
    } else {
        ' '
    }
}

pub struct FpState {
    pub out: Seq<char>,
    pub words: nat,
    pub in_word: bool,
    pub done: bool,
}

pub open spec fn fp_step(st: FpState, c: char) -> FpState {
    if st.done {
        st
    } else if fingerprint_char(c) == ' ' {
        if st.in_word {
            FpState {
                out: st.out,
                words: st.words + 1,
                in_word: false,
                done: st.words + 1 == MAX_FINGERPRINT_WORDS,
            }
        } else {
            st
        }
    } else {
        let sep = if !st.in_word && st.words > 0 { st.out.push(' ') } else { st.out };
        FpState { out: sep.push(fingerprint_char(c)), words: st.words, in_word: true, done: false }
    }
}

/// Fingerprint state after reading `s` from left to right.
pub open spec fn fp_state(s: Seq<char>) -> FpState
    decreases s.len(),
{
    if s.len() == 0 {
        FpState { out: Seq::empty(), words: 0, in_word: false, done: false }
    } else {
        fp_step(fp_state(s.drop_last()), s.last())
    }
}

/// The fingerprint of `s`: words are maximal runs of ASCII letters and
/// digits, letters lowercased and digits replaced by `#`, joined by single
/// spaces, and reading stops once the separator after the
/// `MAX_FINGERPRINT_WORDS`th word is seen.
pub open spec fn spec_fingerprint(s: Seq<char>) -> Seq<char> {
    fp_state(s).out
}

pub fn normalized_text_fingerprint(text: &str) -> (r: String)
    ensures
        r@ == spec_fingerprint(text@),
{
    let chars = str_chars(text);
    let mut out: Vec<char> = Vec::new();
    let mut words: usize = 0;
    let mut in_word = false;
    let mut i: usize = 0;
    assert(chars@.take(chars@.len() as int) == chars@);
    while i < chars.len()
        invariant_except_break
            fp_state(chars@.take(i as int))
                == (FpState { out: out@, words: words as nat, in_word, done: false }),
            words < MAX_FINGERPRINT_WORDS,
        invariant
            i <= chars.len(),
            chars@ == text@,
            chars@.take(chars@.len() as int) == chars@,
        ensures
            fp_state(chars@).out == out@,
        decreases chars.len() - i,
    {
        let ghost prev = chars@.take(i as int);
        let c = chars[i];
        assert(chars@.take(i + 1).drop_last() == prev);
        let mapped = if 'A' <= c && c <= 'Z' {
            ascii_lower_char(c)
        } else if 'a' <= c && c <= 'z' {
            c
        } else if '0' <= c && c <= '9' {
            '#'
        } else {
            ' '
        };
        if mapped == ' ' {
            if in_word {
                in_word = false;
                words = words + 1;
                if words == MAX_FINGERPRINT_WORDS {
                    proof {
                        lemma_fp_done_stable(chars@, i as int + 1);
                        assert(chars@.take(chars@.len() as int) == chars@);
                    }
                    break;
                }
            }
        } else {
            if !in_word {
                if words > 0 {
                    out.push(' ');
                }
                in_word = true;
            }
            out.push(mapped);
        }
        i = i + 1;
    }
    string_from_chars(out.as_slice())
}

/// Once the word limit is reached, further characters change nothing.
pub proof fn lemma_fp_done_stable(s: Seq<char>, k: int)
    requires
        0 <= k <= s.len(),
        fp_state(s.take(k)).done,
    ensures
        fp_state(s) == fp_state(s.take(k)),
    decreases s.len() - k,
{
    if k < s.len() {
        assert(s.take(k + 1).drop_last() == s.take(k));
        lemma_fp_done_stable(s, k + 1);
    } else {
        assert(s.take(k) == s);
    }
}

/// Number of spaces in `x`.
pub open spec fn space_count(x: Seq<char>) -> nat
    decreases x.len(),
{
    if x.len() == 0 { 0 } else { space_count(x.drop_last()) + if x.last() == ' ' { 1nat } else { 0nat } }
}

spec fn fp_shape(st: FpState) -> bool {
    &&& st.done ==> st.words == MAX_FINGERPRINT_WORDS && !st.in_word
    &&& !st.done ==> st.words < MAX_FINGERPRINT_WORDS
    &&& (st.out.len() == 0 <==> (st.words == 0 && !st.in_word))
    &&& st.out.len() > 0 ==> space_count(st.out) + 1 == st.words + if st.in_word { 1nat } else { 0nat }
    &&& st.out.len() > 0 ==> st.out[0] != ' ' && st.out.last() != ' '
}

proof fn lemma_fp_shape(s: Seq<char>)
    ensures
        fp_shape(fp_state(s)),
    decreases s.len(),
{
    if s.len() > 0 {
        lemma_fp_shape(s.drop_last());
        let st = fp_state(s.drop_last());
        let c = s.last();
        if !st.done && fingerprint_char(c) != ' ' {
            let sep = if !st.in_word && st.words > 0 { st.out.push(' ') } else { st.out };
            let o = sep.push(fingerprint_char(c));
            assert(o.drop_last() == sep);
            assert(space_count(o) == space_count(sep));
            if !st.in_word && st.words > 0 {
                assert(sep.drop_last() == st.out);
                assert(space_count(sep) == space_count(st.out) + 1);
                assert(sep[0] == st.out[0]);
            }
            if sep.len() > 0 {
                assert(o[0] == sep[0]);
            }
        }
    }
}

/// A fingerprint holds at most `MAX_FINGERPRINT_WORDS` words: fewer
/// spaces than that, none at either end.
pub proof fn lemma_fingerprint_word_cap(s: Seq<char>)
    ensures
        space_count(spec_fingerprint(s)) < MAX_FINGERPRINT_WORDS,
        spec_fingerprint(s).len() > 0 ==> spec_fingerprint(s)[0] != ' ' && spec_fingerprint(s).last() != ' ',
{
    lemma_fp_shape(s);
}

/// The text with each character replaced by what a fingerprint keeps of it.
pub open spec fn fp_chars(s: Seq<char>) -> Seq<char> {
    s.map_values(|c: char| fingerprint_char(c))
}

pub open spec fn space_sep() -> spec_fn(char) -> bool {
    |c: char| c == ' '
}

/// The words of a fingerprint: the maximal runs of ASCII letters and
/// digits, letters lowercased and digits replaced by `#`.
pub open spec fn fingerprint_words(s: Seq<char>) -> Seq<Seq<char>> {
    crate::text::words(fp_chars(s), space_sep())
}

spec fn fp_matches_words(st: FpState, w: Seq<Seq<char>>, cur: Seq<char>) -> bool {
    if st.done {
        w.len() >= MAX_FINGERPRINT_WORDS && st.out == join_spaced(w.take(MAX_FINGERPRINT_WORDS as int))
    } else {
        &&& st.words == w.len()
        &&& st.in_word == (cur.len() > 0)
        &&& st.out == join_spaced(if cur.len() > 0 { w.push(cur) } else { w })
    }
}

proof fn lemma_fp_words(s: Seq<char>)
    ensures
        fp_matches_words(fp_state(s), words_state(fp_chars(s), space_sep()).0, words_state(fp_chars(s), space_sep()).1),
    decreases s.len(),
{
    if s.len() == 0 {
        assert(fp_chars(s) == Seq::<char>::empty());
    } else {
        let p = s.drop_last();
        let c = s.last();
        lemma_fp_words(p);
        lemma_fp_shape(p);
        assert(fp_chars(s) == fp_chars(p).push(fingerprint_char(c)));
        assert(fp_chars(s).drop_last() == fp_chars(p));
        let st = fp_state(p);
        let (w, cur) = words_state(fp_chars(p), space_sep());
        let fc = fingerprint_char(c);
        if st.done {
            let (w2, cur2) = words_state(fp_chars(s), space_sep());
            assert(w2.take(MAX_FINGERPRINT_WORDS as int) == w.take(MAX_FINGERPRINT_WORDS as int));
        } else if fc == ' ' {
            if cur.len() > 0 {
                if w.len() + 1 == MAX_FINGERPRINT_WORDS {
                    assert(w.push(cur).take(MAX_FINGERPRINT_WORDS as int) == w.push(cur));
                }
            }
        } else {
            if cur.len() > 0 {
                lemma_join_push(w, cur);
                lemma_join_push(w, cur.push(fc));
                if w.len() > 0 {
                    assert(join_spaced(w) + seq![' '] + cur.push(fc) == (join_spaced(w) + seq![' '] + cur).push(fc));
                }
            } else {
                lemma_join_push(w, seq![fc]);
                assert(cur.push(fc) == seq![fc]);
                if w.len() > 0 {
                    assert(join_spaced(w) + seq![' '] + seq![fc] == join_spaced(w).push(' ').push(fc));
                } else {
                    assert(Seq::<char>::empty().push(fc) == seq![fc]);
                }
            }
        }
    }
}

/// A fingerprint is the first `MAX_FINGERPRINT_WORDS` of its words (all of
/// them when there are fewer), joined by single spaces.
pub proof fn lemma_fingerprint_direct(s: Seq<char>)
    ensures
        spec_fingerprint(s) == join_spaced(
            if fingerprint_words(s).len() < MAX_FINGERPRINT_WORDS { fingerprint_words(s) }
            else { fingerprint_words(s).take(MAX_FINGERPRINT_WORDS as int) }),
{
    lemma_fp_words(s);
    lemma_fp_shape(s);
    let (w, cur) = words_state(fp_chars(s), space_sep());
    let ws = fingerprint_words(s);
    if cur.len() > 0 {
        assert(ws == w.push(cur));
        if fp_state(s).done {
            assert(ws.take(MAX_FINGERPRINT_WORDS as int) == w.take(MAX_FINGERPRINT_WORDS as int));
        } else if ws.len() >= MAX_FINGERPRINT_WORDS {
            assert(ws.take(MAX_FINGERPRINT_WORDS as int) == ws);
        }
    } else {
        assert(ws == w);
        if !fp_state(s).done && ws.len() >= MAX_FINGERPRINT_WORDS {
            assert(ws.take(MAX_FINGERPRINT_WORDS as int) == ws);
        }
    }
}

} // verus!

verus! {

/// Collapses whitespace runs into single spaces and trims both ends.
pub fn normalize_whitespace(value: &str) -> (r: String)
    ensures
        r@ == crate::text::collapse_whitespace(value@),
{
    let chars = str_chars(value);
    let out = crate::text::collapse_ws_chars(&chars);
    string_from_chars(out.as_slice())
}

} // verus!
