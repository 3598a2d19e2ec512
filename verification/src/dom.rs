//! The plain-value model of a parsed tree: the kind of each arena node and
//! the children of each node.

use vstd::prelude::*;
use crate::html::{
    html_node_children, html_node_kinds, kinds_view, node_children, node_kinds, NodeKind,
    NodeKindView, ParsedHtml,
};

verus! {

pub open spec fn children_view(children: Seq<Vec<usize>>) -> Seq<Seq<usize>> {
    children.map_values(|c: Vec<usize>| c@)
}

/// Every child index names a node of the arena.
pub open spec fn children_in_range(ch: Seq<Seq<usize>>) -> bool {
    forall|i: int, j: int| 0 <= i < ch.len() && 0 <= j < ch[i].len() ==> #[trigger] ch[i][j] < ch.len()
}

/// Arena node `k` is the child of some node.
pub open spec fn has_parent(ch: Seq<Seq<usize>>, k: int) -> bool {
    exists|i: int, j: int| 0 <= i < ch.len() && 0 <= j < ch[i].len() && #[trigger] ch[i][j] == k
}

pub struct DocModel {
    pub kinds: Vec<NodeKind>,
    pub children: Vec<Vec<usize>>,
}

impl DocModel {
    pub open spec fn kinds_v(&self) -> Seq<NodeKindView> {
        kinds_view(self.kinds@)
    }

    pub open spec fn children_v(&self) -> Seq<Seq<usize>> {
        children_view(self.children@)
    }

    pub open spec fn wf(&self) -> bool {
        &&& self.kinds@.len() == self.children@.len()
        &&& children_in_range(self.children_v())
    }
}

/// Reads the node kinds and children of a parsed tree.
pub fn load_model(d: &ParsedHtml) -> (m: DocModel)
    ensures
        m.kinds_v() == html_node_kinds(d.source_text(), d.is_fragment()),
        m.children_v() == html_node_children(d.source_text(), d.is_fragment(), d.removed_nodes()),
        m.wf(),
        m.kinds@.len() == d.node_count(),
{
    let kinds = node_kinds(d);
    let children = node_children(d);
    proof {
        assert(kinds_view(kinds@).len() == kinds@.len());
        assert forall|i: int, j: int|
            0 <= i < children_view(children@).len() && 0 <= j < children_view(children@)[i].len()
            implies #[trigger] children_view(children@)[i][j] < children_view(children@).len() by {
            assert(children_view(children@)[i] == children@[i]@);
            assert(children@[i]@[j] < children@.len());
        }
    }
    DocModel { kinds, children }
}

/// Whether the tree's root still has an element child, so that its
/// serialization can be taken.
pub fn root_element_kept(d: &ParsedHtml) -> (r: bool)
    ensures
        r == crate::html::root_element_present(d.source_text(), d.is_fragment(), d.removed_nodes()),
{
    let m = load_model(d);
    let ghost kv = m.kinds_v();
    let ghost ch = m.children_v();
    if m.children.len() == 0 {
        return false;
    }
    let kids = &m.children[0];
    assert(ch[0] == kids@);
    let mut j: usize = 0;
    while j < kids.len()
        invariant
            m.wf(),
            kv == m.kinds_v(),
            ch == m.children_v(),
            kv == html_node_kinds(d.source_text(), d.is_fragment()),
            ch == html_node_children(d.source_text(), d.is_fragment(), d.removed_nodes()),
            ch.len() > 0,
            ch[0] == kids@,
            j <= kids@.len(),
            forall|t: int| 0 <= t < j ==> !((#[trigger] kv[ch[0][t] as int]) is Element),
        decreases kids@.len() - j,
    {
        assert(ch[0][j as int] < ch.len());
        let c = kids[j];
        assert(kv[c as int] == m.kinds@[c as int]@);
        match &m.kinds[c] {
            NodeKind::Element { .. } => {
                assert(kv[ch[0][j as int] as int] is Element);
                return true;
            },
            _ => {},
        }
        j = j + 1;
    }
    false
}

/// For each arena node, whether it is the child of some node.
pub fn parent_flags(m: &DocModel) -> (r: Vec<bool>)
    requires
        m.wf(),
    ensures
        r@.len() == m.children@.len(),
        forall|k: int| 0 <= k < r@.len() ==> r@[k] == has_parent(m.children_v(), k),
{
    let n = m.children.len();
    let mut flags: Vec<bool> = Vec::new();
    let mut t: usize = 0;
    while t < n
        invariant
            t <= n,
            n == m.children@.len(),
            flags@.len() == t,
            forall|k: int| 0 <= k < t ==> !flags@[k],
        decreases n - t,
    {
        flags.push(false);
        t = t + 1;
    }
    let ghost ch = m.children_v();
    let mut i: usize = 0;
    while i < n
        invariant
            i <= n,
            n == m.children@.len(),
            ch == m.children_v(),
            m.wf(),
            flags@.len() == n,
            forall|k: int| 0 <= k < n ==> (flags@[k] <==> exists|a: int, b: int|
                0 <= a < i && 0 <= b < ch[a].len() && #[trigger] ch[a][b] == k),
        decreases n - i,
    {
        let row = &m.children[i];
        assert(ch[i as int] == row@);
        let mut j: usize = 0;
        while j < row.len()
            invariant
                i < n,
                j <= row@.len(),
                n == m.children@.len(),
                ch == m.children_v(),
                ch[i as int] == row@,
                m.wf(),
                flags@.len() == n,
                forall|k: int| 0 <= k < n ==> (flags@[k] <==> (exists|a: int, b: int|
                    0 <= a < i && 0 <= b < ch[a].len() && #[trigger] ch[a][b] == k)
                    || (exists|b: int| 0 <= b < j && #[trigger] ch[i as int][b] == k)),
            decreases row@.len() - j,
        {
            let c = row[j];
            assert(ch[i as int][j as int] == c);
            assert(c < n);
            flags.set(c, true);
            j = j + 1;
        }
        proof {
            assert forall|k: int| 0 <= k < n implies (flags@[k] <==> exists|a: int, b: int|
                0 <= a < i + 1 && 0 <= b < ch[a].len() && #[trigger] ch[a][b] == k) by {
                if flags@[k] {
                    if exists|b: int| 0 <= b < row@.len() && #[trigger] ch[i as int][b] == k {
                        let b = choose|b: int| 0 <= b < row@.len() && #[trigger] ch[i as int][b] == k;
                        assert(0 <= i < i + 1 && 0 <= b < ch[i as int].len() && ch[i as int][b] == k);
                    }
                }
                if exists|a: int, b: int| 0 <= a < i + 1 && 0 <= b < ch[a].len() && #[trigger] ch[a][b] == k {
                    let (a, b) = choose|a: int, b: int| 0 <= a < i + 1 && 0 <= b < ch[a].len() && #[trigger] ch[a][b] == k;
                    if a == i {
                        assert(0 <= b < row@.len() && ch[i as int][b] == k);
                    }
                }
            }
        }
        i = i + 1;
    }
    proof {
        assert forall|k: int| 0 <= k < flags@.len() implies flags@[k] == has_parent(ch, k) by {
            if flags@[k] {
                let (a, b) = choose|a: int, b: int| 0 <= a < n && 0 <= b < ch[a].len() && #[trigger] ch[a][b] == k;
                assert(0 <= a < ch.len() && 0 <= b < ch[a].len() && ch[a][b] == k);
            }
            if has_parent(ch, k) {
                let (a, b) = choose|a: int, b: int| 0 <= a < ch.len() && 0 <= b < ch[a].len() && #[trigger] ch[a][b] == k;
                assert(0 <= a < n && 0 <= b < ch[a].len() && ch[a][b] == k);
            }
        }
    }
    flags
}

} // verus!

verus! {

/// The indices below `n` whose flag is set, in increasing order.
pub open spec fn flagged_ids(flags: Seq<bool>, n: int) -> Seq<usize>
    decreases n,
{
    if n <= 0 {
        Seq::empty()
    } else if flags[n - 1] {
        flagged_ids(flags, n - 1).push((n - 1) as usize)
    } else {
        flagged_ids(flags, n - 1)
    }
}

pub proof fn lemma_flagged_ids_bounded(flags: Seq<bool>, n: int)
    requires
        n <= flags.len(),
    ensures
        forall|i: int| 0 <= i < flagged_ids(flags, n).len() ==> #[trigger] flagged_ids(flags, n)[i] < n,
    decreases n,
{
    if n > 0 {
        lemma_flagged_ids_bounded(flags, n - 1);
        let prev = flagged_ids(flags, n - 1);
        assert forall|i: int| 0 <= i < flagged_ids(flags, n).len() implies #[trigger] flagged_ids(flags, n)[i] < n by {
            if i < prev.len() {
                assert(flagged_ids(flags, n)[i] == prev[i]);
            }
        }
    }
}

/// The indices whose flag is set, in increasing order.
pub fn collect_flagged(flags: &Vec<bool>) -> (r: Vec<usize>)
    ensures
        r@ == flagged_ids(flags@, flags@.len() as int),
        forall|i: int| 0 <= i < r@.len() ==> #[trigger] r@[i] < flags@.len(),
{
    let mut r: Vec<usize> = Vec::new();
    let mut i: usize = 0;
    while i < flags.len()
        invariant
            i <= flags@.len(),
            r@ == flagged_ids(flags@, i as int),
        decreases flags@.len() - i,
    {
        if flags[i] {
            r.push(i);
        }
        i = i + 1;
    }
    proof {
        lemma_flagged_ids_bounded(flags@, flags@.len() as int);
    }
    r
}

/// Detaches the given arena nodes, in order.
pub fn detach_all(d: &mut ParsedHtml, ids: &Vec<usize>)
    requires
        forall|i: int| 0 <= i < ids@.len() ==> #[trigger] ids@[i] < old(d).node_count(),
    ensures
        final(d).source_text() == old(d).source_text(),
        final(d).is_fragment() == old(d).is_fragment(),
        final(d).node_count() == old(d).node_count(),
        final(d).removed_nodes() == old(d).removed_nodes() + ids@,
{
    let mut i: usize = 0;
    while i < ids.len()
        invariant
            i <= ids@.len(),
            d.source_text() == old(d).source_text(),
            d.is_fragment() == old(d).is_fragment(),
            d.node_count() == old(d).node_count(),
            d.removed_nodes() == old(d).removed_nodes() + ids@.take(i as int),
            forall|t: int| 0 <= t < ids@.len() ==> #[trigger] ids@[t] < old(d).node_count(),
        decreases ids@.len() - i,
    {
        crate::html::detach(d, ids[i]);
        assert(ids@.take(i + 1) == ids@.take(i as int).push(ids@[i as int]));
        i = i + 1;
    }
    assert(ids@.take(ids@.len() as int) == ids@);
}

} // verus!

verus! {

pub open spec fn pieces_view(v: Seq<Vec<char>>) -> Seq<Seq<char>> {
    v.map_values(|p: Vec<char>| p@)
}

/// The text nodes of the subtree rooted at `k`, in document order
/// (`ElementRef::text`), exploring at most `fuel` levels.
pub open spec fn subtree_texts(kinds: Seq<NodeKindView>, ch: Seq<Seq<usize>>, k: int, fuel: nat) -> Seq<Seq<char>>
    decreases fuel, 0nat,
{
    if fuel == 0 || !(0 <= k < kinds.len()) || kinds.len() != ch.len() {
        Seq::empty()
    } else {
        match kinds[k] {
            NodeKindView::Text { text } => seq![text],
            _ => children_texts(kinds, ch, ch[k], (fuel - 1) as nat),
        }
    }
}

/// The text nodes of the subtrees rooted at each of `kids`, in order.
pub open spec fn children_texts(kinds: Seq<NodeKindView>, ch: Seq<Seq<usize>>, kids: Seq<usize>, fuel: nat) -> Seq<Seq<char>>
    decreases fuel, kids.len(),
{
    if kids.len() == 0 {
        Seq::empty()
    } else {
        children_texts(kinds, ch, kids.drop_last(), fuel) + subtree_texts(kinds, ch, kids.last() as int, fuel)
    }
}

/// Appends the text nodes of the subtree rooted at `k`, in document order.
pub fn collect_texts(m: &DocModel, k: usize, fuel: usize, out: &mut Vec<Vec<char>>)
    requires
        m.wf(),
        k < m.kinds@.len(),
    ensures
        pieces_view(final(out)@) == pieces_view(old(out)@) + subtree_texts(m.kinds_v(), m.children_v(), k as int, fuel as nat),
    decreases fuel, 0nat,
{
    let ghost kv = m.kinds_v();
    let ghost ch = m.children_v();
    assert(kv[k as int] == m.kinds@[k as int]@);
    if fuel == 0 {
        assert(pieces_view(out@) =~= pieces_view(old(out)@) + Seq::<Seq<char>>::empty());
        return;
    }
    match &m.kinds[k] {
        NodeKind::Text { text } => {
            let ghost before = pieces_view(out@);
            out.push(crate::text::str_chars(text.as_str()));
            assert(pieces_view(out@) =~= before + seq![text@]);
        },
        _ => {
            let kids = &m.children[k];
            assert(ch[k as int] == kids@);
            let mut j: usize = 0;
            while j < kids.len()
                invariant
                    m.wf(),
                    kv == m.kinds_v(),
                    ch == m.children_v(),
                    ch[k as int] == kids@,
                    k < m.kinds@.len(),
                    fuel > 0,
                    j <= kids@.len(),
                    pieces_view(out@) == pieces_view(old(out)@)
                        + children_texts(kv, ch, kids@.take(j as int), (fuel - 1) as nat),
                decreases kids@.len() - j,
            {
                assert(kids@.take(j + 1).drop_last() == kids@.take(j as int));
                assert(kids@.take(j + 1).last() == kids@[j as int]);
                assert(ch[k as int][j as int] < ch.len());
                let ghost before = pieces_view(out@);
                collect_texts(m, kids[j], fuel - 1, out);
                assert(pieces_view(out@) =~= pieces_view(old(out)@)
                    + children_texts(kv, ch, kids@.take(j + 1), (fuel - 1) as nat));
                j = j + 1;
            }
            assert(kids@.take(j as int) == kids@);
        },
    }
}

/// Concatenation of pieces.
pub open spec fn concat_pieces(p: Seq<Seq<char>>) -> Seq<char>
    decreases p.len(),
{
    if p.len() == 0 {
        Seq::empty()
    } else {
        concat_pieces(p.drop_last()) + p.last()
    }
}

pub fn concat_all(p: &Vec<Vec<char>>) -> (r: Vec<char>)
    ensures
        r@ == concat_pieces(pieces_view(p@)),
{
    let mut out: Vec<char> = Vec::new();
    let mut i: usize = 0;
    while i < p.len()
        invariant
            i <= p@.len(),
            out@ == concat_pieces(pieces_view(p@).take(i as int)),
        decreases p@.len() - i,
    {
        assert(pieces_view(p@).take(i + 1).drop_last() == pieces_view(p@).take(i as int));
        let piece = &p[i];
        let mut j: usize = 0;
        let ghost base = out@;
        while j < piece.len()
            invariant
                j <= piece@.len(),
                out@ == base + piece@.take(j as int),
            decreases piece@.len() - j,
        {
            out.push(piece[j]);
            assert(piece@.take(j + 1) == piece@.take(j as int).push(piece@[j as int]));
            j = j + 1;
        }
        assert(piece@.take(j as int) == piece@);
        i = i + 1;
    }
    assert(pieces_view(p@).take(i as int) == pieces_view(p@));
    out
}

pub fn join_all_spaced(p: &Vec<Vec<char>>) -> (r: Vec<char>)
    ensures
        r@ == crate::text::join_spaced(pieces_view(p@)),
{
    let mut out: Vec<char> = Vec::new();
    let mut i: usize = 0;
    while i < p.len()
        invariant
            i <= p@.len(),
            out@ == crate::text::join_spaced(pieces_view(p@).take(i as int)),
        decreases p@.len() - i,
    {
        assert(pieces_view(p@).take(i + 1).drop_last() == pieces_view(p@).take(i as int));
        if i > 0 {
            out.push(' ');
        }
        let piece = &p[i];
        let mut j: usize = 0;
        let ghost base = out@;
        while j < piece.len()
            invariant
                j <= piece@.len(),
                out@ == base + piece@.take(j as int),
            decreases piece@.len() - j,
        {
            out.push(piece[j]);
            assert(piece@.take(j + 1) == piece@.take(j as int).push(piece@[j as int]));
            j = j + 1;
        }
        assert(piece@.take(j as int) == piece@);
        i = i + 1;
    }
    assert(pieces_view(p@).take(i as int) == pieces_view(p@));
    out
}

/// The node kinds of the tree that `d` holds.
pub open spec fn tree_kinds(d: ParsedHtml) -> Seq<NodeKindView> {
    html_node_kinds(d.source_text(), d.is_fragment())
}

/// The children of every node of the tree that `d` holds.
pub open spec fn tree_children(d: ParsedHtml) -> Seq<Seq<usize>> {
    html_node_children(d.source_text(), d.is_fragment(), d.removed_nodes())
}

/// Node `k` is an element named `name` that has a parent: what a type
/// selector yields from `Html::select`.
pub open spec fn selected_named(kinds: Seq<NodeKindView>, ch: Seq<Seq<usize>>, k: int, name: Seq<char>) -> bool {
    &&& 0 <= k < kinds.len()
    &&& has_parent(ch, k)
    &&& kinds[k] matches NodeKindView::Element { name: nm, .. } && nm == name
}

/// The first of the nodes below `n` that `selected_named` holds of, or -1.
pub open spec fn first_named(kinds: Seq<NodeKindView>, ch: Seq<Seq<usize>>, name: Seq<char>, n: int) -> int
    decreases n,
{
    if n <= 0 {
        -1
    } else {
        let f = first_named(kinds, ch, name, n - 1);
        if f >= 0 { f } else if selected_named(kinds, ch, n - 1, name) { n - 1 } else { -1 }
    }
}

/// The text of the subtree rooted at `k` (`ElementRef::text`, concatenated).
pub open spec fn element_text(kinds: Seq<NodeKindView>, ch: Seq<Seq<usize>>, k: int) -> Seq<char> {
    concat_pieces(subtree_texts(kinds, ch, k, kinds.len()))
}

pub fn element_text_exec(m: &DocModel, k: usize) -> (r: Vec<char>)
    requires
        m.wf(),
        k < m.kinds@.len(),
    ensures
        r@ == element_text(m.kinds_v(), m.children_v(), k as int),
{
    let mut pieces: Vec<Vec<char>> = Vec::new();
    collect_texts(m, k, m.kinds.len(), &mut pieces);
    assert(pieces_view(pieces@) =~= subtree_texts(m.kinds_v(), m.children_v(), k as int, m.kinds@.len() as nat));
    concat_all(&pieces)
}

/// The first node that a type selector for `name` yields.
pub fn first_named_exec(m: &DocModel, parents: &Vec<bool>, name: &str) -> (r: Option<usize>)
    requires
        m.wf(),
        parents@.len() == m.kinds@.len(),
        forall|t: int| 0 <= t < parents@.len() ==> parents@[t] == has_parent(m.children_v(), t),
    ensures
        match r {
            Some(k) => k < m.kinds@.len() && first_named(m.kinds_v(), m.children_v(), name@, m.kinds@.len() as int) == k,
            None => first_named(m.kinds_v(), m.children_v(), name@, m.kinds@.len() as int) == -1,
        },
{
    let ghost kv = m.kinds_v();
    let ghost ch = m.children_v();
    let mut k: usize = 0;
    while k < m.kinds.len()
        invariant
            k <= m.kinds@.len(),
            m.wf(),
            kv == m.kinds_v(),
            ch == m.children_v(),
            parents@.len() == m.kinds@.len(),
            forall|t: int| 0 <= t < parents@.len() ==> parents@[t] == has_parent(ch, t),
            first_named(kv, ch, name@, k as int) == -1,
        decreases m.kinds@.len() - k,
    {
        assert(kv[k as int] == m.kinds@[k as int]@);
        let hit = match &m.kinds[k] {
            NodeKind::Element { name: nm, .. } => parents[k] && crate::text::str_eq(nm.as_str(), name),
            _ => false,
        };
        if hit {
            proof {
                lemma_first_named_stable(kv, ch, name@, k as int + 1, m.kinds@.len() as int);
            }
            return Some(k);
        }
        k = k + 1;
    }
    None
}

/// Once found, the first selected node stays the first.
pub proof fn lemma_first_named_stable(kinds: Seq<NodeKindView>, ch: Seq<Seq<usize>>, name: Seq<char>, a: int, b: int)
    requires
        a <= b,
        first_named(kinds, ch, name, a) >= 0,
    ensures
        first_named(kinds, ch, name, b) == first_named(kinds, ch, name, a),
    decreases b - a,
{
    if a < b {
        lemma_first_named_stable(kinds, ch, name, a, b - 1);
    }
}

/// Node `j` is an element named `name`.
pub open spec fn is_named(kinds: Seq<NodeKindView>, j: int, name: Seq<char>) -> bool {
    0 <= j < kinds.len() && (kinds[j] matches NodeKindView::Element { name: nm, .. } && nm == name)
}

/// The descendants of `k` that are elements named `name`, in document
/// order (what `ElementRef::select` yields for a type selector), exploring
/// at most `fuel` levels.
pub open spec fn named_below(kinds: Seq<NodeKindView>, ch: Seq<Seq<usize>>, k: int, name: Seq<char>, fuel: nat) -> Seq<usize>
    decreases fuel, 0nat,
{
    if fuel == 0 || !(0 <= k < kinds.len()) || kinds.len() != ch.len() {
        Seq::empty()
    } else {
        named_in(kinds, ch, ch[k], name, (fuel - 1) as nat)
    }
}

/// The nodes among `kids` and their descendants that are elements named
/// `name`, in document order.
pub open spec fn named_in(kinds: Seq<NodeKindView>, ch: Seq<Seq<usize>>, kids: Seq<usize>, name: Seq<char>, fuel: nat) -> Seq<usize>
    decreases fuel, kids.len(),
{
    if kids.len() == 0 {
        Seq::empty()
    } else {
        named_in(kinds, ch, kids.drop_last(), name, fuel)
            + (if is_named(kinds, kids.last() as int, name) { seq![kids.last()] } else { Seq::empty() })
            + named_below(kinds, ch, kids.last() as int, name, fuel)
    }
}

/// Appends the descendants of `k` that are elements named `name`.
pub fn collect_named(m: &DocModel, k: usize, name: &str, fuel: usize, out: &mut Vec<usize>)
    requires
        m.wf(),
        k < m.kinds@.len(),
    ensures
        final(out)@ == old(out)@ + named_below(m.kinds_v(), m.children_v(), k as int, name@, fuel as nat),
        (forall|i: int| 0 <= i < old(out)@.len() ==> #[trigger] old(out)@[i] < m.kinds@.len())
            ==> (forall|i: int| 0 <= i < final(out)@.len() ==> #[trigger] final(out)@[i] < m.kinds@.len()),
    decreases fuel, 0nat,
{
    let ghost kv = m.kinds_v();
    let ghost ch = m.children_v();
    if fuel == 0 {
        assert(out@ =~= old(out)@ + Seq::<usize>::empty());
        return;
    }
    let kids = &m.children[k];
    assert(ch[k as int] == kids@);
    let mut j: usize = 0;
    while j < kids.len()
        invariant
            m.wf(),
            kv == m.kinds_v(),
            ch == m.children_v(),
            ch[k as int] == kids@,
            k < m.kinds@.len(),
            fuel > 0,
            j <= kids@.len(),
            out@ == old(out)@ + named_in(kv, ch, kids@.take(j as int), name@, (fuel - 1) as nat),
            (forall|i: int| 0 <= i < old(out)@.len() ==> #[trigger] old(out)@[i] < m.kinds@.len())
                ==> (forall|i: int| 0 <= i < out@.len() ==> #[trigger] out@[i] < m.kinds@.len()),
        decreases kids@.len() - j,
    {
        assert(kids@.take(j + 1).drop_last() == kids@.take(j as int));
        assert(kids@.take(j + 1).last() == kids@[j as int]);
        assert(ch[k as int][j as int] < ch.len());
        let c = kids[j];
        assert(kv[c as int] == m.kinds@[c as int]@);
        let ghost before = out@;
        let hit = match &m.kinds[c] {
            NodeKind::Element { name: nm, .. } => crate::text::str_eq(nm.as_str(), name),
            _ => false,
        };
        if hit {
            out.push(c);
        }
        let ghost mid = out@;
        collect_named(m, c, name, fuel - 1, out);
        assert(out@ =~= old(out)@ + named_in(kv, ch, kids@.take(j + 1), name@, (fuel - 1) as nat));
        j = j + 1;
    }
    assert(kids@.take(j as int) == kids@);
}

/// The selected elements named `name` below node `n`: every such element
/// with a parent, in arena order.
pub open spec fn all_named(kinds: Seq<NodeKindView>, ch: Seq<Seq<usize>>, name: Seq<char>, n: int) -> Seq<usize>
    decreases n,
{
    if n <= 0 {
        Seq::empty()
    } else if selected_named(kinds, ch, n - 1, name) {
        all_named(kinds, ch, name, n - 1).push((n - 1) as usize)
    } else {
        all_named(kinds, ch, name, n - 1)
    }
}

/// Every element named `name` that has a parent, in arena order (what
/// `Html::select` yields for a type selector).
pub fn all_named_exec(m: &DocModel, parents: &Vec<bool>, name: &str) -> (r: Vec<usize>)
    requires
        m.wf(),
        parents@.len() == m.kinds@.len(),
        forall|t: int| 0 <= t < parents@.len() ==> parents@[t] == has_parent(m.children_v(), t),
    ensures
        r@ == all_named(m.kinds_v(), m.children_v(), name@, m.kinds@.len() as int),
        forall|i: int| 0 <= i < r@.len() ==> #[trigger] r@[i] < m.kinds@.len(),
{
    let ghost kv = m.kinds_v();
    let ghost ch = m.children_v();
    let mut r: Vec<usize> = Vec::new();
    let mut k: usize = 0;
    while k < m.kinds.len()
        invariant
            k <= m.kinds@.len(),
            m.wf(),
            kv == m.kinds_v(),
            ch == m.children_v(),
            parents@.len() == m.kinds@.len(),
            forall|t: int| 0 <= t < parents@.len() ==> parents@[t] == has_parent(ch, t),
            r@ == all_named(kv, ch, name@, k as int),
            forall|i: int| 0 <= i < r@.len() ==> #[trigger] r@[i] < k,
        decreases m.kinds@.len() - k,
    {
        assert(kv[k as int] == m.kinds@[k as int]@);
        let hit = match &m.kinds[k] {
            NodeKind::Element { name: nm, .. } => parents[k] && crate::text::str_eq(nm.as_str(), name),
            _ => false,
        };
        if hit {
            r.push(k);
        }
        k = k + 1;
    }
    r
}

} // verus!
