//! Ordered sets of strings ranked by a pair of keys and then
//! lexicographically.

use vstd::prelude::*;
use crate::text::{lemma_lt_asymmetric, lemma_lt_irreflexive, lemma_lt_total, lemma_lt_transitive, seq_char_lt, str_lt};

verus! {

/// A string with its two ranking keys.
pub struct Ranked {
    pub major: u64,
    pub minor: u64,
    pub text: String,
}

pub type RankedView = (nat, nat, Seq<char>);

pub open spec fn ranked_view(v: Seq<Ranked>) -> Seq<RankedView> {
    v.map_values(|r: Ranked| (r.major as nat, r.minor as nat, r.text@))
}

/// `a` ranks before `b`: larger major key first, then larger minor key,
/// then lexicographically smaller text.
pub open spec fn ranks_before(a: RankedView, b: RankedView) -> bool {
    a.0 > b.0 || (a.0 == b.0 && a.1 > b.1) || (a.0 == b.0 && a.1 == b.1 && seq_char_lt(a.2, b.2))
}

pub proof fn lemma_ranks_irreflexive(a: RankedView)
    ensures
        !ranks_before(a, a),
{
    lemma_lt_irreflexive(a.2);
}

pub proof fn lemma_ranks_asymmetric(a: RankedView, b: RankedView)
    requires
        ranks_before(a, b),
    ensures
        !ranks_before(b, a),
{
    if a.0 == b.0 && a.1 == b.1 {
        lemma_lt_asymmetric(a.2, b.2);
    }
}

pub proof fn lemma_ranks_transitive(a: RankedView, b: RankedView, c: RankedView)
    requires
        ranks_before(a, b),
        ranks_before(b, c),
    ensures
        ranks_before(a, c),
{
    if a.0 == b.0 && b.0 == c.0 && a.1 == b.1 && b.1 == c.1 {
        lemma_lt_transitive(a.2, b.2, c.2);
    }
}

pub proof fn lemma_ranks_total(a: RankedView, b: RankedView)
    requires
        a != b,
    ensures
        ranks_before(a, b) || ranks_before(b, a),
{
    if a.0 == b.0 && a.1 == b.1 {
        lemma_lt_total(a.2, b.2);
    }
}

/// Every element ranks before every later one.
pub open spec fn strictly_ranked(s: Seq<RankedView>) -> bool {
    forall|i: int, j: int| 0 <= i < j < s.len() ==> ranks_before(#[trigger] s[i], #[trigger] s[j])
}

pub fn ranks_before_exec(a: &Ranked, b: &Ranked) -> (r: bool)
    ensures
        r == ranks_before((a.major as nat, a.minor as nat, a.text@), (b.major as nat, b.minor as nat, b.text@)),
{
    if a.major != b.major {
        a.major > b.major
    } else if a.minor != b.minor {
        a.minor > b.minor
    } else {
        str_lt(a.text.as_str(), b.text.as_str())
    }
}

/// Inserts `x` into a strictly ranked vector unless an equal element is
/// already there.
pub fn insert_ranked(v: &mut Vec<Ranked>, x: Ranked)
    requires
        strictly_ranked(ranked_view(old(v)@)),
    ensures
        strictly_ranked(ranked_view(final(v)@)),
        ranked_view(final(v)@).to_set() == ranked_view(old(v)@).to_set().insert(
            (x.major as nat, x.minor as nat, x.text@)),
{
    let ghost xv = (x.major as nat, x.minor as nat, x.text@);
    let ghost ov = ranked_view(v@);
    let mut i: usize = 0;
    while i < v.len()
        invariant
            i <= v@.len(),
            ov == ranked_view(v@),
            strictly_ranked(ov),
            xv == (x.major as nat, x.minor as nat, x.text@),
            forall|t: int| 0 <= t < i ==> ranks_before(#[trigger] ov[t], xv),
        ensures
            i <= v@.len(),
            i < v@.len() ==> !ranks_before(ov[i as int], xv),
        decreases v@.len() - i,
    {
        if !ranks_before_exec(&v[i], &x) {
            break;
        }
        i = i + 1;
    }
    if i < v.len() && v[i].major == x.major && v[i].minor == x.minor && v[i].text == x.text {
        proof {
            assert(ov[i as int] == xv);
            assert(ov.to_set().insert(xv) =~= ov.to_set());
        }
        return;
    }
    proof {
        if i < ov.len() {
            assert(ov[i as int] != xv);
            assert(!ranks_before(ov[i as int], xv));
            lemma_ranks_total(ov[i as int], xv);
        }
    }
    v.insert(i, x);
    proof {
        let nv = ranked_view(v@);
        assert(nv =~= ov.insert(i as int, xv));
        assert forall|a: int, b: int| 0 <= a < b < nv.len() implies ranks_before(#[trigger] nv[a], #[trigger] nv[b]) by {
            if b < i {
                assert(nv[a] == ov[a] && nv[b] == ov[b]);
            } else if b == i {
                assert(nv[a] == ov[a]);
            } else if a == i {
                assert(nv[b] == ov[b - 1]);
                if b - 1 > i {
                    assert(ranks_before(ov[i as int], ov[b - 1]));
                    lemma_ranks_transitive(xv, ov[i as int], ov[b - 1]);
                }
            } else if a < i {
                assert(nv[a] == ov[a] && nv[b] == ov[b - 1]);
                assert(ranks_before(ov[a], xv));
                if b - 1 > i {
                    assert(ranks_before(ov[i as int], ov[b - 1]));
                    lemma_ranks_transitive(xv, ov[i as int], ov[b - 1]);
                }
                lemma_ranks_transitive(ov[a], xv, ov[b - 1]);
            } else {
                assert(nv[a] == ov[a - 1] && nv[b] == ov[b - 1]);
            }
        }
        assert forall|e: RankedView| nv.to_set().contains(e) <==> ov.to_set().insert(xv).contains(e) by {
            if nv.to_set().contains(e) {
                let k = choose|k: int| 0 <= k < nv.len() && nv[k] == e;
                if k < i {
                    assert(ov[k] == e);
                } else if k > i {
                    assert(ov[k - 1] == e);
                }
            }
            if ov.to_set().contains(e) {
                let k = choose|k: int| 0 <= k < ov.len() && ov[k] == e;
                if k < i {
                    assert(nv[k] == e);
                } else {
                    assert(nv[k + 1] == e);
                }
            }
            if e == xv {
                assert(nv[i as int] == e);
            }
        }
        assert(nv.to_set() =~= ov.to_set().insert(xv));
    }
}

/// A strictly ranked sequence is determined by its set of elements.
pub proof fn lemma_strictly_ranked_unique(a: Seq<RankedView>, b: Seq<RankedView>)
    requires
        strictly_ranked(a),
        strictly_ranked(b),
        a.to_set() == b.to_set(),
    ensures
        a == b,
    decreases a.len(),
{
    if a.len() == 0 {
        if b.len() > 0 {
            assert(b.to_set().contains(b[0]));
        }
        assert(b.len() == 0);
    } else {
        // both first elements are the least: a[0] is in b, b[0] is in a
        assert(a.to_set().contains(a[0]));
        assert(b.len() > 0);
        assert(b.to_set().contains(b[0]));
        let ia = choose|k: int| 0 <= k < b.len() && b[k] == a[0];
        let ib = choose|k: int| 0 <= k < a.len() && a[k] == b[0];
        if ia > 0 {
            assert(ranks_before(b[0], b[ia]));
            if ib > 0 {
                assert(ranks_before(a[0], a[ib]));
                lemma_ranks_asymmetric(a[0], b[0]);
            } else {
                lemma_ranks_irreflexive(a[0]);
            }
        }
        assert(a[0] == b[0]);
        let ta = a.drop_first();
        let tb = b.drop_first();
        assert forall|e: RankedView| ta.to_set().contains(e) <==> tb.to_set().contains(e) by {
            if ta.to_set().contains(e) {
                let k = choose|k: int| 0 <= k < ta.len() && ta[k] == e;
                assert(a[k + 1] == e);
                assert(ranks_before(a[0], a[k + 1]));
                assert(a.to_set().contains(e));
                let kb = choose|m: int| 0 <= m < b.len() && b[m] == e;
                if kb == 0 {
                    lemma_ranks_irreflexive(e);
                }
                assert(tb[kb - 1] == e);
            }
            if tb.to_set().contains(e) {
                let k = choose|k: int| 0 <= k < tb.len() && tb[k] == e;
                assert(b[k + 1] == e);
                assert(ranks_before(b[0], b[k + 1]));
                assert(b.to_set().contains(e));
                let ka = choose|m: int| 0 <= m < a.len() && a[m] == e;
                if ka == 0 {
                    lemma_ranks_irreflexive(e);
                }
                assert(ta[ka - 1] == e);
            }
        }
        assert(ta.to_set() =~= tb.to_set());
        assert forall|i: int, j: int| 0 <= i < j < ta.len() implies ranks_before(#[trigger] ta[i], #[trigger] ta[j]) by {
            assert(ta[i] == a[i + 1] && ta[j] == a[j + 1]);
        }
        assert forall|i: int, j: int| 0 <= i < j < tb.len() implies ranks_before(#[trigger] tb[i], #[trigger] tb[j]) by {
            assert(tb[i] == b[i + 1] && tb[j] == b[j + 1]);
        }
        lemma_strictly_ranked_unique(ta, tb);
        assert(a == seq![a[0]] + ta);
        assert(b == seq![b[0]] + tb);
    }
}

/// The elements of `s` in ranking order (meaningful when `s` is finite).
pub open spec fn ranked_order(s: Set<RankedView>) -> Seq<RankedView> {
    choose|keys: Seq<RankedView>| strictly_ranked(keys) && keys.to_set() == s
}

/// The texts of the elements of `s`, in ranking order.
pub open spec fn ranked_texts(s: Set<RankedView>) -> Seq<Seq<char>> {
    ranked_order(s).map_values(|k: RankedView| k.2)
}

/// A strictly ranked sequence holding exactly the elements of `s` is the
/// ranking order of `s`.
pub proof fn lemma_ranked_order(a: Seq<RankedView>, s: Set<RankedView>)
    requires
        strictly_ranked(a),
        a.to_set() == s,
    ensures
        ranked_order(s) == a,
{
    let b = ranked_order(s);
    assert(strictly_ranked(b) && b.to_set() == s);
    lemma_strictly_ranked_unique(a, b);
}

} // verus!
