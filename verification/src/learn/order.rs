//! The order in which learned snippets are removed: longer snippets first,
//! then lexicographically.

use vstd::prelude::*;
use std::cmp::Ordering;
use crate::learn::finish::snippet_key;
use crate::learn::ranking::ranks_before;
use crate::text::{byte_len, lemma_lt_asymmetric, seq_char_lt, str_lt, utf8_len};

verus! {

/// How `left` compares with `right` in removal order: the one with more
/// UTF-8 bytes comes first; equal lengths compare lexicographically.
pub open spec fn removal_order(left: Seq<char>, right: Seq<char>) -> Ordering {
    if utf8_len(right) < utf8_len(left) {
        Ordering::Less
    } else if utf8_len(left) < utf8_len(right) {
        Ordering::Greater
    } else if left == right {
        Ordering::Equal
    } else if seq_char_lt(left, right) {
        Ordering::Less
    } else {
        Ordering::Greater
    }
}

/// Compares two snippets in removal order.
pub fn compare_snippets_for_removal(left: &String, right: &String) -> (r: Ordering)
    ensures
        r == removal_order(left@, right@),
{
    let ll = byte_len(left.as_str());
    let rl = byte_len(right.as_str());
    if rl < ll {
        Ordering::Less
    } else if ll < rl {
        Ordering::Greater
    } else if crate::text::str_eq(left.as_str(), right.as_str()) {
        Ordering::Equal
    } else if str_lt(left.as_str(), right.as_str()) {
        Ordering::Less
    } else {
        Ordering::Greater
    }
}

/// Snippets ranked one before the other (as the learned removals list
/// them) compare `Less` in removal order, and the other way round
/// `Greater`.
pub proof fn lemma_ranked_snippets_in_removal_order(a: Seq<char>, b: Seq<char>)
    requires
        ranks_before(snippet_key(a), snippet_key(b)),
    ensures
        removal_order(a, b) == Ordering::Less,
        removal_order(b, a) == Ordering::Greater,
{
    if utf8_len(a) == utf8_len(b) {
        assert(seq_char_lt(a, b));
        lemma_lt_asymmetric(a, b);
        if a == b {
            crate::text::lemma_lt_irreflexive(a);
        }
    }
}

/// Removal order is a strict total order: only a snippet compares `Equal`
/// with itself, swapping the arguments swaps `Less` and `Greater`, and
/// `Less` is transitive.
pub proof fn lemma_removal_order_total(a: Seq<char>, b: Seq<char>, c: Seq<char>)
    ensures
        (removal_order(a, b) == Ordering::Equal) <==> a == b,
        (removal_order(a, b) == Ordering::Less) <==> (removal_order(b, a) == Ordering::Greater),
        removal_order(a, b) == Ordering::Less && removal_order(b, c) == Ordering::Less
            ==> removal_order(a, c) == Ordering::Less,
{
    if a != b && utf8_len(a) == utf8_len(b) {
        crate::text::lemma_lt_total(a, b);
        if seq_char_lt(a, b) {
            lemma_lt_asymmetric(a, b);
        } else {
            lemma_lt_asymmetric(b, a);
        }
    }
    if removal_order(a, b) == Ordering::Less && removal_order(b, c) == Ordering::Less {
        if utf8_len(a) == utf8_len(b) && utf8_len(b) == utf8_len(c) {
            crate::text::lemma_lt_transitive(a, b, c);
            if a == c {
                lemma_lt_asymmetric(a, b);
            }
        }
    }
}

} // verus!
