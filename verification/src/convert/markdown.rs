//! Markdown emission over the plain-value model of a parsed tree.

use vstd::prelude::*;
use crate::dom::DocModel;
use crate::html::{NodeKind, NodeKindView};
use crate::learn::selectors::{attr_plain, plain_attr_value};
use crate::text::{
    decimal, is_ascii_ws, push_str_chars, str_chars, str_eq, trim, trim_chars, trim_end,
    trim_end_chars, unicode_white_space, usize_to_decimal,
};

verus! {

// ---------------------------------------------------------------------------
// Text helpers

/// Collapsing runs of ASCII whitespace into one space: the output so far
/// and whether the last character read was whitespace.
pub open spec fn inline_state(s: Seq<char>) -> (Seq<char>, bool)
    decreases s.len(),
{
    if s.len() == 0 {
        (Seq::empty(), false)
    } else {
        let (out, last_space) = inline_state(s.drop_last());
        if is_ascii_ws(s.last()) {
            if last_space { (out, true) } else { (out.push(' '), true) }
        } else {
            (out.push(s.last()), false)
        }
    }
}

/// `s` with every run of ASCII whitespace replaced by one space (spaces at
/// the ends are kept).
pub open spec fn normalize_inline(s: Seq<char>) -> Seq<char> {
    inline_state(s).0
}

pub fn normalize_inline_text(s: &Vec<char>) -> (r: Vec<char>)
    ensures
        r@ == normalize_inline(s@),
{
    let mut out: Vec<char> = Vec::new();
    let mut last_was_space = false;
    let mut i: usize = 0;
    while i < s.len()
        invariant
            i <= s@.len(),
            inline_state(s@.take(i as int)) == (out@, last_was_space),
        decreases s@.len() - i,
    {
        assert(s@.take(i + 1).drop_last() == s@.take(i as int));
        assert(s@.take(i + 1).last() == s@[i as int]);
        let ch = s[i];
        if ch == ' ' || ch == '\t' || ch == '\n' || ch == '\x0C' || ch == '\r' {
            if !last_was_space {
                out.push(' ');
                last_was_space = true;
            }
        } else {
            out.push(ch);
            last_was_space = false;
        }
        i = i + 1;
    }
    assert(s@.take(i as int) == s@);
    out
}

/// The longest run of consecutive backticks: the longest so far and the
/// current run.
pub open spec fn backtick_state(s: Seq<char>) -> (nat, nat)
    decreases s.len(),
{
    if s.len() == 0 {
        (0, 0)
    } else {
        let (mx, cur) = backtick_state(s.drop_last());
        if s.last() == '`' {
            if cur + 1 > mx { ((cur + 1) as nat, (cur + 1) as nat) } else { (mx, (cur + 1) as nat) }
        } else {
            (mx, 0)
        }
    }
}

proof fn lemma_backtick_bounded(s: Seq<char>)
    ensures
        backtick_state(s).0 <= s.len(),
        backtick_state(s).1 <= s.len(),
    decreases s.len(),
{
    if s.len() > 0 {
        lemma_backtick_bounded(s.drop_last());
    }
}

pub fn count_max_consecutive_backticks(content: &Vec<char>) -> (r: usize)
    ensures
        r == backtick_state(content@).0,
{
    let mut max_run: usize = 0;
    let mut cur_run: usize = 0;
    let mut i: usize = 0;
    while i < content.len()
        invariant
            i <= content@.len(),
            backtick_state(content@.take(i as int)) == (max_run as nat, cur_run as nat),
        decreases content@.len() - i,
    {
        assert(content@.take(i + 1).drop_last() == content@.take(i as int));
        assert(content@.take(i + 1).last() == content@[i as int]);
        proof { lemma_backtick_bounded(content@.take(i as int)); }
        if content[i] == '`' {
            cur_run = cur_run + 1;
            if cur_run > max_run {
                max_run = cur_run;
            }
        } else {
            cur_run = 0;
        }
        i = i + 1;
    }
    assert(content@.take(i as int) == content@);
    max_run
}

/// Splitting into lines as `str::lines` does: the completed lines (without
/// their `\n`, and without a `\r` before it) and the line in progress.
pub open spec fn lines_state(s: Seq<char>) -> (Seq<Seq<char>>, Seq<char>)
    decreases s.len(),
{
    if s.len() == 0 {
        (Seq::empty(), Seq::empty())
    } else {
        let (done, cur) = lines_state(s.drop_last());
        if s.last() == '\n' {
            let line = if cur.len() > 0 && cur.last() == '\r' { cur.drop_last() } else { cur };
            (done.push(line), Seq::empty())
        } else {
            (done, cur.push(s.last()))
        }
    }
}

/// The lines of `s` (`str::lines`).
pub open spec fn lines_of(s: Seq<char>) -> Seq<Seq<char>> {
    let (done, cur) = lines_state(s);
    if cur.len() > 0 { done.push(cur) } else { done }
}

pub open spec fn lines_view(v: Seq<Vec<char>>) -> Seq<Seq<char>> {
    v.map_values(|l: Vec<char>| l@)
}

pub fn lines_exec(s: &Vec<char>) -> (r: Vec<Vec<char>>)
    ensures
        lines_view(r@) == lines_of(s@),
{
    let mut done: Vec<Vec<char>> = Vec::new();
    let mut cur: Vec<char> = Vec::new();
    let mut i: usize = 0;
    while i < s.len()
        invariant
            i <= s@.len(),
            lines_state(s@.take(i as int)) == (lines_view(done@), cur@),
        decreases s@.len() - i,
    {
        assert(s@.take(i + 1).drop_last() == s@.take(i as int));
        assert(s@.take(i + 1).last() == s@[i as int]);
        let c = s[i];
        if c == '\n' {
            let ghost dv = lines_view(done@);
            let ghost cv = cur@;
            let mut line = cur;
            let n = line.len();
            if n > 0 && line[n - 1] == '\r' {
                line.pop();
                assert(line@ == cv.drop_last());
            }
            done.push(line);
            assert(lines_view(done@) =~= dv.push(if cv.len() > 0 && cv.last() == '\r' { cv.drop_last() } else { cv }));
            cur = Vec::new();
        } else {
            cur.push(c);
        }
        i = i + 1;
    }
    assert(s@.take(i as int) == s@);
    if cur.len() > 0 {
        let ghost dv = lines_view(done@);
        let ghost cv = cur@;
        done.push(cur);
        assert(lines_view(done@) =~= dv.push(cv));
    }
    done
}

/// Folding lines into the final text: the output so far, whether a
/// non-blank line was written and whether blank lines followed it.
pub open spec fn finalize_state(lines: Seq<Seq<char>>) -> (Seq<char>, bool, bool)
    decreases lines.len(),
{
    if lines.len() == 0 {
        (Seq::empty(), false, false)
    } else {
        let (out, has_content, blank) = finalize_state(lines.drop_last());
        let trimmed = trim_end(lines.last());
        if trim(trimmed).len() == 0 {
            (out, has_content, has_content || blank)
        } else {
            let sep = if has_content && blank { seq!['\n'] } else { Seq::empty() };
            (out + sep + trimmed + seq!['\n'], true, false)
        }
    }
}

/// The buffer's lines with trailing whitespace removed, blank lines before
/// the first non-blank line dropped, each run of blank lines between
/// non-blank lines replaced by one empty line, and no final line break.
pub open spec fn finalize_spec(buf: Seq<char>) -> Seq<char> {
    let out = finalize_state(lines_of(buf)).0;
    if out.len() > 0 && out.last() == '\n' { out.drop_last() } else { out }
}

/// No line break in `x`.
pub open spec fn no_line_break(x: Seq<char>) -> bool {
    forall|i: int| 0 <= i < x.len() ==> x[i] != '\n'
}

/// No three line breaks in a row in `x` (no two blank lines in a row).
pub open spec fn no_double_blank(x: Seq<char>) -> bool {
    forall|i: int| 0 <= i && i + 2 < x.len() ==> !(#[trigger] x[i] == '\n' && x[i + 1] == '\n' && x[i + 2] == '\n')
}

proof fn lemma_lines_state_no_break(s: Seq<char>)
    ensures
        forall|j: int| 0 <= j < lines_state(s).0.len() ==> no_line_break(#[trigger] lines_state(s).0[j]),
        no_line_break(lines_state(s).1),
    decreases s.len(),
{
    if s.len() > 0 {
        lemma_lines_state_no_break(s.drop_last());
        let (done, cur) = lines_state(s.drop_last());
        if s.last() == '\n' {
            let line = if cur.len() > 0 && cur.last() == '\r' { cur.drop_last() } else { cur };
            assert(no_line_break(line));
            let d2 = done.push(line);
            assert forall|j: int| 0 <= j < d2.len() implies no_line_break(#[trigger] d2[j]) by {
                if j < done.len() {
                    assert(d2[j] == done[j]);
                }
            }
        } else {
            assert(no_line_break(cur.push(s.last())));
        }
    }
}

proof fn lemma_lines_no_break(s: Seq<char>)
    ensures
        forall|j: int| 0 <= j < lines_of(s).len() ==> no_line_break(#[trigger] lines_of(s)[j]),
{
    lemma_lines_state_no_break(s);
    let (done, cur) = lines_state(s);
    if cur.len() > 0 {
        let d2 = done.push(cur);
        assert forall|j: int| 0 <= j < d2.len() implies no_line_break(#[trigger] d2[j]) by {
            if j < done.len() {
                assert(d2[j] == done[j]);
            }
        }
    }
}

proof fn lemma_trim_end_no_break(s: Seq<char>)
    requires
        no_line_break(s),
    ensures
        no_line_break(trim_end(s)),
    decreases s.len(),
{
    if s.len() > 0 && unicode_white_space(s.last()) {
        lemma_trim_end_no_break(s.drop_last());
    }
}

/// What the fold keeps: the output is empty exactly when no content was
/// written, otherwise it ends with a non-break character and a line break,
/// never begins with a line break and never holds three in a row.
spec fn finalize_shape(st: (Seq<char>, bool, bool)) -> bool {
    let out = st.0;
    &&& st.1 <==> out.len() > 0
    &&& out.len() > 0 ==> out.len() >= 2 && out.last() == '\n' && out[out.len() - 2] != '\n' && out[0] != '\n'
    &&& out.len() > 0 ==> !unicode_white_space(out[out.len() - 2])
    &&& no_double_blank(out)
}

proof fn lemma_finalize_state_shape(lines: Seq<Seq<char>>)
    requires
        forall|j: int| 0 <= j < lines.len() ==> no_line_break(#[trigger] lines[j]),
    ensures
        finalize_shape(finalize_state(lines)),
    decreases lines.len(),
{
    if lines.len() > 0 {
        let prefix = lines.drop_last();
        assert forall|j: int| 0 <= j < prefix.len() implies no_line_break(#[trigger] prefix[j]) by {
            assert(prefix[j] == lines[j]);
        }
        lemma_finalize_state_shape(prefix);
        let (out, has_content, blank) = finalize_state(prefix);
        let trimmed = trim_end(lines.last());
        assert(no_line_break(lines[lines.len() - 1]));
        lemma_trim_end_no_break(lines.last());
        lemma_trim_end_last(lines.last());
        if trim(trimmed).len() != 0 {
            if trimmed.len() == 0 {
                assert(crate::text::trim_start(trimmed) == trimmed);
                assert(trim(trimmed) == trimmed);
            }
            let sep = if has_content && blank { seq!['\n'] } else { Seq::<char>::empty() };
            let o2 = out + sep + trimmed + seq!['\n'];
            let a = out.len() + sep.len();
            assert forall|k: int| a <= k < a + trimmed.len() implies o2[k] != '\n' by {
                assert(o2[k] == trimmed[k - a]);
            }
            assert forall|k: int| 0 <= k < out.len() implies o2[k] == out[k] by {}
            assert(sep.len() > 0 ==> o2[out.len() as int] == '\n' && out.len() > 0);
            assert(o2[o2.len() - 1] == '\n');
            assert(o2[o2.len() - 2] == trimmed.last());
            assert forall|i: int| 0 <= i && i + 2 < o2.len() implies
                !(#[trigger] o2[i] == '\n' && o2[i + 1] == '\n' && o2[i + 2] == '\n') by {
                if i + 2 < out.len() {
                    assert(!(out[i] == '\n' && out[i + 1] == '\n' && out[i + 2] == '\n'));
                } else if i + 2 == out.len() {
                    assert(o2[i] == out[out.len() - 2]);
                } else if i + 1 >= a {
                    assert(i + 1 < a + trimmed.len());
                } else {
                    assert(i + 2 >= a);
                    if i + 2 < a + trimmed.len() {
                    } else {
                        assert(trimmed.len() >= 1);
                    }
                }
            }
            if out.len() == 0 {
                assert(sep.len() == 0);
                assert(o2[0] == trimmed[0]);
            } else {
                assert(o2[0] == out[0]);
            }
        }
    }
}

proof fn lemma_trim_end_last(s: Seq<char>)
    ensures
        trim_end(s).len() > 0 ==> !unicode_white_space(trim_end(s).last()),
        trim_end(s).len() > 0 ==> trim_end(trim_end(s)) == trim_end(s),
    decreases s.len(),
{
    if s.len() > 0 && unicode_white_space(s.last()) {
        lemma_trim_end_last(s.drop_last());
    }
}

/// The finished Markdown never holds two blank lines in a row, and
/// neither begins nor ends with a line break.
pub proof fn lemma_finalize_blank_lines(buf: Seq<char>)
    ensures
        no_double_blank(finalize_spec(buf)),
        finalize_spec(buf).len() > 0 ==> finalize_spec(buf)[0] != '\n' && finalize_spec(buf).last() != '\n',
{
    lemma_lines_no_break(buf);
    lemma_finalize_state_shape(lines_of(buf));
    let out = finalize_state(lines_of(buf)).0;
    if out.len() > 0 {
        let r = out.drop_last();
        assert forall|i: int| 0 <= i && i + 2 < r.len() implies
            !(#[trigger] r[i] == '\n' && r[i + 1] == '\n' && r[i + 2] == '\n') by {
            assert(!(out[i] == '\n' && out[i + 1] == '\n' && out[i + 2] == '\n'));
        }
    }
}

/// The lines of the finished text: each non-blank line without its
/// trailing whitespace, preceded by one empty line where blank lines
/// separated it from the previous non-blank line.
pub open spec fn finalize_lines(lines: Seq<Seq<char>>) -> Seq<Seq<char>>
    decreases lines.len(),
{
    if lines.len() == 0 {
        Seq::empty()
    } else {
        let prev = finalize_lines(lines.drop_last());
        let st = finalize_state(lines.drop_last());
        let t = trim_end(lines.last());
        if trim(t).len() == 0 {
            prev
        } else {
            let gap = if st.1 && st.2 { seq![Seq::<char>::empty()] } else { Seq::<Seq<char>>::empty() };
            prev + gap + seq![t]
        }
    }
}

/// The non-blank lines, each without its trailing whitespace, in order.
pub open spec fn nonblank_lines(lines: Seq<Seq<char>>) -> Seq<Seq<char>>
    decreases lines.len(),
{
    if lines.len() == 0 {
        Seq::empty()
    } else {
        let prev = nonblank_lines(lines.drop_last());
        let t = trim_end(lines.last());
        if trim(t).len() == 0 { prev } else { prev.push(t) }
    }
}

proof fn lemma_lines_state_plain(t: Seq<char>)
    requires
        no_line_break(t),
    ensures
        lines_state(t) == (Seq::<Seq<char>>::empty(), t),
    decreases t.len(),
{
    if t.len() > 0 {
        assert(no_line_break(t.drop_last()));
        lemma_lines_state_plain(t.drop_last());
        assert(t.drop_last().push(t.last()) == t);
    }
}

proof fn lemma_lines_state_concat(a: Seq<char>, b: Seq<char>)
    requires
        lines_state(a).1.len() == 0,
    ensures
        lines_state(a + b) == (lines_state(a).0 + lines_state(b).0, lines_state(b).1),
    decreases b.len(),
{
    if b.len() == 0 {
        assert(a + b == a);
        assert(lines_state(a).0 + Seq::<Seq<char>>::empty() == lines_state(a).0);
        assert(lines_state(a).1 == Seq::<char>::empty());
    } else {
        lemma_lines_state_concat(a, b.drop_last());
        assert((a + b).drop_last() == a + b.drop_last());
        assert((a + b).last() == b.last());
        let (d, c) = lines_state(b.drop_last());
        if b.last() == '\n' {
            let line = if c.len() > 0 && c.last() == '\r' { c.drop_last() } else { c };
            assert((lines_state(a).0 + d).push(line) == lines_state(a).0 + d.push(line));
        }
    }
}

/// A non-blank line `t` (no line break, non-whitespace last character)
/// followed by a line break, after an optional empty line.
proof fn lemma_lines_state_block(sep: Seq<char>, t: Seq<char>)
    requires
        sep == Seq::<char>::empty() || sep == seq!['\n'],
        no_line_break(t),
        t.len() > 0,
        !unicode_white_space(t.last()),
    ensures
        lines_state(sep + t + seq!['\n']) == (
            (if sep.len() > 0 { seq![Seq::<char>::empty()] } else { Seq::<Seq<char>>::empty() }) + seq![t],
            Seq::<char>::empty()),
{
    lemma_lines_state_plain(t);
    let tl = t + seq!['\n'];
    assert(tl.drop_last() == t);
    assert(lines_state(tl) == (seq![t], Seq::<char>::empty()));
    if sep.len() > 0 {
        let nl = seq!['\n'];
        assert(nl.drop_last() == Seq::<char>::empty());
        assert(lines_state(Seq::<char>::empty()) == (Seq::<Seq<char>>::empty(), Seq::<char>::empty()));
        assert(Seq::<Seq<char>>::empty().push(Seq::<char>::empty()) =~= seq![Seq::<char>::empty()]);
        assert(lines_state(nl) == (seq![Seq::<char>::empty()], Seq::<char>::empty()));
        lemma_lines_state_concat(nl, tl);
        assert(sep + t + seq!['\n'] == nl + tl);
    } else {
        assert(sep + t + seq!['\n'] == tl);
        assert(Seq::<Seq<char>>::empty() + seq![t] == seq![t]);
    }
}

proof fn lemma_finalize_state_lines(lines: Seq<Seq<char>>)
    requires
        forall|j: int| 0 <= j < lines.len() ==> no_line_break(#[trigger] lines[j]),
    ensures
        lines_state(finalize_state(lines).0) == (finalize_lines(lines), Seq::<char>::empty()),
    decreases lines.len(),
{
    if lines.len() == 0 {
    } else {
        let prefix = lines.drop_last();
        assert forall|j: int| 0 <= j < prefix.len() implies no_line_break(#[trigger] prefix[j]) by {
            assert(prefix[j] == lines[j]);
        }
        lemma_finalize_state_lines(prefix);
        let (out, has_content, blank) = finalize_state(prefix);
        let t = trim_end(lines.last());
        assert(no_line_break(lines[lines.len() - 1]));
        lemma_trim_end_no_break(lines.last());
        lemma_trim_end_last(lines.last());
        if trim(t).len() != 0 {
            if t.len() == 0 {
                assert(crate::text::trim_start(t) == t);
            }
            let sep = if has_content && blank { seq!['\n'] } else { Seq::<char>::empty() };
            lemma_lines_state_block(sep, t);
            lemma_lines_state_concat(out, sep + t + seq!['\n']);
            assert(out + sep + t + seq!['\n'] == out + (sep + t + seq!['\n']));
            let gap = if has_content && blank { seq![Seq::<char>::empty()] } else { Seq::<Seq<char>>::empty() };
            assert(finalize_lines(prefix) + (gap + seq![t]) == finalize_lines(prefix) + gap + seq![t]);
        }
    }
}

proof fn lemma_finalize_lines_refold(lines: Seq<Seq<char>>)
    ensures
        finalize_state(finalize_lines(lines)) == (finalize_state(lines).0, finalize_state(lines).1, false),
        nonblank_lines(finalize_lines(lines)) == nonblank_lines(lines),
        forall|j: int| 0 <= j < finalize_lines(lines).len() ==> (#[trigger] finalize_lines(lines)[j]).len() == 0
            || !unicode_white_space(finalize_lines(lines)[j].last()),
    decreases lines.len(),
{
    if lines.len() > 0 {
        let prefix = lines.drop_last();
        lemma_finalize_lines_refold(prefix);
        lemma_finalize_state_shape_flags(prefix);
        let fl = finalize_lines(prefix);
        let (out, has_content, blank) = finalize_state(prefix);
        let t = trim_end(lines.last());
        lemma_trim_end_last(lines.last());
        if trim(t).len() != 0 {
            if t.len() == 0 {
                assert(crate::text::trim_start(t) == t);
            }
            let empty = Seq::<char>::empty();
            assert(trim_end(empty) == empty);
            assert(crate::text::trim_start(empty) == empty);
            let gap = if has_content && blank { seq![empty] } else { Seq::<Seq<char>>::empty() };
            let with_gap = fl + gap;
            let all = fl + gap + seq![t];
            assert(all.drop_last() == with_gap);
            assert(all.last() == t);
            assert(trim_end(t) == t);
            if has_content && blank {
                assert(with_gap.drop_last() == fl);
                assert(with_gap.last() == empty);
                assert(finalize_state(with_gap) == (out, true, true));
                assert(nonblank_lines(with_gap) == nonblank_lines(fl));
            } else {
                assert(with_gap == fl);
                assert(finalize_state(with_gap) == (out, has_content, false));
            }
            assert(finalize_state(all) == (out + (if has_content && blank { seq!['\n'] } else { Seq::<char>::empty() })
                + t + seq!['\n'], true, false));
            assert(nonblank_lines(all) == nonblank_lines(with_gap).push(t));
            assert forall|j: int| 0 <= j < all.len() implies (#[trigger] all[j]).len() == 0
                || !unicode_white_space(all[j].last()) by {
                if j < fl.len() {
                    assert(all[j] == fl[j]);
                }
            }
        }
    }
}

proof fn lemma_finalize_state_shape_flags(lines: Seq<Seq<char>>)
    ensures
        finalize_state(lines).2 ==> finalize_state(lines).1,
    decreases lines.len(),
{
    if lines.len() > 0 {
        lemma_finalize_state_shape_flags(lines.drop_last());
    }
}

/// Finishing is idempotent; every line of the finished text is empty or
/// ends in a character that is not whitespace; and its non-blank lines are
/// the buffer's non-blank lines, trailing whitespace removed, in order.
pub proof fn lemma_finalize_normal_form(buf: Seq<char>)
    ensures
        finalize_spec(finalize_spec(buf)) == finalize_spec(buf),
        forall|j: int| 0 <= j < lines_of(finalize_spec(buf)).len() ==>
            (#[trigger] lines_of(finalize_spec(buf))[j]).len() == 0
            || !unicode_white_space(lines_of(finalize_spec(buf))[j].last()),
        nonblank_lines(lines_of(finalize_spec(buf))) == nonblank_lines(lines_of(buf)),
{
    let lines = lines_of(buf);
    lemma_lines_no_break(buf);
    lemma_finalize_state_shape(lines);
    lemma_finalize_state_lines(lines);
    lemma_finalize_lines_refold(lines);
    let out = finalize_state(lines).0;
    let r = finalize_spec(buf);
    if out.len() == 0 {
        assert(lines_state(r) == (Seq::<Seq<char>>::empty(), Seq::<char>::empty()));
        assert(finalize_lines(lines) == Seq::<Seq<char>>::empty());
        assert(lines_of(r) == finalize_lines(lines));
    } else {
        assert(r == out.drop_last());
        assert(r.push('\n') == out);
        assert(out.drop_last() == r);
        let (d, c) = lines_state(r);
        assert(r.len() > 0 && r.last() == out[out.len() - 2]);
        assert(r.last() != '\n');
        assert(r.drop_last().push(r.last()) == r);
        assert(c.len() > 0 && c.last() == r.last());
        assert(c.last() != '\r');
        assert(lines_state(out) == (d.push(c), Seq::<char>::empty()));
        assert(lines_of(r) == d.push(c));
    }
    assert(lines_of(r) == finalize_lines(lines));
}

pub fn finalize(buf: &Vec<char>) -> (r: Vec<char>)
    ensures
        r@ == finalize_spec(buf@),
{
    let lines = lines_exec(buf);
    let ghost lv = lines_view(lines@);
    let mut out: Vec<char> = Vec::new();
    let mut blank = false;
    let mut has_content = false;
    let mut i: usize = 0;
    while i < lines.len()
        invariant
            i <= lines@.len(),
            lv == lines_view(lines@),
            finalize_state(lv.take(i as int)) == (out@, has_content, blank),
        decreases lines@.len() - i,
    {
        assert(lv.take(i + 1).drop_last() == lv.take(i as int));
        assert(lv.take(i + 1).last() == lines@[i as int]@);
        let trimmed = trim_end_chars(&lines[i]);
        let tt = trim_chars(&trimmed);
        if tt.len() == 0 {
            if has_content {
                blank = true;
            }
        } else {
            let ghost before = out@;
            if has_content && blank {
                out.push('\n');
            }
            let ghost mid = out@;
            let mut j: usize = 0;
            while j < trimmed.len()
                invariant
                    j <= trimmed@.len(),
                    out@ == mid + trimmed@.take(j as int),
                decreases trimmed@.len() - j,
            {
                out.push(trimmed[j]);
                assert(trimmed@.take(j + 1) == trimmed@.take(j as int).push(trimmed@[j as int]));
                j = j + 1;
            }
            assert(trimmed@.take(j as int) == trimmed@);
            out.push('\n');
            assert(out@ =~= before + (if has_content && blank { seq!['\n'] } else { Seq::empty() }) + trimmed@ + seq!['\n']);
            blank = false;
            has_content = true;
        }
        i = i + 1;
    }
    assert(lv.take(i as int) == lv);
    let n = out.len();
    if n > 0 && out[n - 1] == '\n' {
        out.pop();
    }
    out
}

// ---------------------------------------------------------------------------
// Tables

/// A table being collected: header cells, data rows, the row and the cell
/// in progress, and whether rows go to the header.
pub struct TableState {
    pub headers: Vec<Vec<char>>,
    pub rows: Vec<Vec<Vec<char>>>,
    pub current_row: Vec<Vec<char>>,
    pub current_cell: Vec<char>,
    pub in_head: bool,
}

pub struct TableView {
    pub headers: Seq<Seq<char>>,
    pub rows: Seq<Seq<Seq<char>>>,
    pub row: Seq<Seq<char>>,
    pub cell: Seq<char>,
    pub in_head: bool,
}

pub open spec fn cells_view(v: Seq<Vec<char>>) -> Seq<Seq<char>> {
    v.map_values(|c: Vec<char>| c@)
}

pub open spec fn rows_view(v: Seq<Vec<Vec<char>>>) -> Seq<Seq<Seq<char>>> {
    v.map_values(|r: Vec<Vec<char>>| cells_view(r@))
}

impl View for TableState {
    type V = TableView;

    open spec fn view(&self) -> TableView {
        TableView {
            headers: cells_view(self.headers@),
            rows: rows_view(self.rows@),
            row: cells_view(self.current_row@),
            cell: self.current_cell@,
            in_head: self.in_head,
        }
    }
}

pub open spec fn empty_table() -> TableView {
    TableView { headers: Seq::empty(), rows: Seq::empty(), row: Seq::empty(), cell: Seq::empty(), in_head: false }
}

/// `" cell |"` for each cell.
pub open spec fn cells_line(cells: Seq<Seq<char>>) -> Seq<char>
    decreases cells.len(),
{
    if cells.len() == 0 {
        Seq::empty()
    } else {
        cells_line(cells.drop_last()) + seq![' '] + cells.last() + seq![' ', '|']
    }
}

/// `p` repeated `n` times.
pub open spec fn repeat(p: Seq<char>, n: nat) -> Seq<char>
    decreases n,
{
    if n == 0 { Seq::empty() } else { repeat(p, (n - 1) as nat) + p }
}

/// One data row, cut or padded to `col` columns.
pub open spec fn row_line(row: Seq<Seq<char>>, col: nat) -> Seq<char> {
    let w: nat = if row.len() < col { row.len() } else { col };
    seq!['|'] + cells_line(row.take(w as int)) + repeat(seq![' ', ' ', '|'], (col - w) as nat) + seq!['\n']
}

pub open spec fn rows_lines(rows: Seq<Seq<Seq<char>>>, col: nat) -> Seq<char>
    decreases rows.len(),
{
    if rows.len() == 0 { Seq::empty() } else { rows_lines(rows.drop_last(), col) + row_line(rows.last(), col) }
}

/// The GitHub-flavoured Markdown of a table: nothing without header
/// cells; else the header row, the separator row and the data rows.
pub open spec fn gfm_table(t: TableView) -> Seq<char> {
    let col = t.headers.len();
    if col == 0 {
        Seq::empty()
    } else {
        seq!['|'] + cells_line(t.headers) + seq!['\n']
            + seq!['|'] + repeat(seq![' ', '-', '-', '-', ' ', '|'], col) + seq!['\n']
            + rows_lines(t.rows, col)
    }
}

fn push_chars(buf: &mut Vec<char>, s: &Vec<char>)
    ensures
        final(buf)@ == old(buf)@ + s@,
{
    let mut i: usize = 0;
    while i < s.len()
        invariant
            i <= s@.len(),
            buf@ == old(buf)@ + s@.take(i as int),
        decreases s@.len() - i,
    {
        buf.push(s[i]);
        assert(s@.take(i + 1) == s@.take(i as int).push(s@[i as int]));
        i = i + 1;
    }
    assert(s@.take(i as int) == s@);
}

fn push_cells_line(buf: &mut Vec<char>, cells: &Vec<Vec<char>>, n: usize)
    requires
        n <= cells@.len(),
    ensures
        final(buf)@ == old(buf)@ + cells_line(cells_view(cells@).take(n as int)),
{
    let ghost cv = cells_view(cells@);
    let mut i: usize = 0;
    while i < n
        invariant
            n <= cells@.len(),
            cv == cells_view(cells@),
            i <= n,
            buf@ == old(buf)@ + cells_line(cv.take(i as int)),
        decreases n - i,
    {
        assert(cv.take(i + 1).drop_last() == cv.take(i as int));
        assert(cv.take(i + 1).last() == cells@[i as int]@);
        let ghost before = buf@;
        buf.push(' ');
        push_chars(buf, &cells[i]);
        buf.push(' ');
        buf.push('|');
        assert(buf@ =~= before + seq![' '] + cells@[i as int]@ + seq![' ', '|']);
        i = i + 1;
    }
}

fn push_repeat(buf: &mut Vec<char>, p: &Vec<char>, n: usize)
    ensures
        final(buf)@ == old(buf)@ + repeat(p@, n as nat),
{
    let mut i: usize = 0;
    while i < n
        invariant
            i <= n,
            buf@ == old(buf)@ + repeat(p@, i as nat),
        decreases n - i,
    {
        let ghost before = buf@;
        push_chars(buf, p);
        assert(repeat(p@, (i + 1) as nat) == repeat(p@, i as nat) + p@);
        assert(buf@ =~= old(buf)@ + repeat(p@, (i + 1) as nat));
        i = i + 1;
    }
}

/// Appends the table's Markdown to `buf`.
pub fn emit_gfm_table(ts: &TableState, buf: &mut Vec<char>)
    ensures
        final(buf)@ == old(buf)@ + gfm_table(ts@),
{
    if ts.headers.len() == 0 {
        assert(buf@ =~= old(buf)@ + Seq::<char>::empty());
        return;
    }
    let col = ts.headers.len();
    let ghost t = ts@;
    buf.push('|');
    push_cells_line(buf, &ts.headers, col);
    assert(cells_view(ts.headers@).take(col as int) == t.headers);
    buf.push('\n');
    buf.push('|');
    let sep = vec![' ', '-', '-', '-', ' ', '|'];
    assert(sep@ == seq![' ', '-', '-', '-', ' ', '|']);
    push_repeat(buf, &sep, col);
    buf.push('\n');
    let ghost head = buf@;
    assert(head =~= old(buf)@ + (seq!['|'] + cells_line(t.headers) + seq!['\n']
        + seq!['|'] + repeat(seq![' ', '-', '-', '-', ' ', '|'], col as nat) + seq!['\n']));
    let pad = vec![' ', ' ', '|'];
    assert(pad@ == seq![' ', ' ', '|']);
    let mut r: usize = 0;
    while r < ts.rows.len()
        invariant
            r <= ts.rows@.len(),
            t == ts@,
            col == t.headers.len(),
            pad@ == seq![' ', ' ', '|'],
            buf@ == head + rows_lines(t.rows.take(r as int), col as nat),
        decreases ts.rows@.len() - r,
    {
        assert(t.rows.take(r + 1).drop_last() == t.rows.take(r as int));
        assert(t.rows.take(r + 1).last() == cells_view(ts.rows@[r as int]@));
        let row = &ts.rows[r];
        let ghost before = buf@;
        buf.push('|');
        let w: usize = if row.len() < col { row.len() } else { col };
        push_cells_line(buf, row, w);
        push_repeat(buf, &pad, col - w);
        buf.push('\n');
        assert(buf@ =~= before + row_line(cells_view(row@), col as nat));
        r = r + 1;
    }
    assert(t.rows.take(r as int) == t.rows);
}

// ---------------------------------------------------------------------------
// Emission state

pub enum ListKind {
    Unordered,
    Ordered(usize),
}

/// The Markdown written so far, the line breaks owed before the next text,
/// whether the text is inside `<pre>`, the open lists and the table being
/// collected.
pub struct State {
    pub buf: Vec<char>,
    pub pending_nl: usize,
    pub in_pre: bool,
    pub list_stack: Vec<ListKind>,
    pub table_state: Option<TableState>,
}

pub struct MdView {
    pub buf: Seq<char>,
    pub pending: nat,
    pub in_pre: bool,
    pub lists: Seq<ListKind>,
    pub table: Option<TableView>,
}

impl View for State {
    type V = MdView;

    open spec fn view(&self) -> MdView {
        MdView {
            buf: self.buf@,
            pending: self.pending_nl as nat,
            in_pre: self.in_pre,
            lists: self.list_stack@,
            table: match self.table_state { None => None, Some(t) => Some(t@) },
        }
    }
}

pub open spec fn fresh_state(in_pre: bool) -> MdView {
    MdView { buf: Seq::empty(), pending: 0, in_pre, lists: Seq::empty(), table: None }
}

/// `n` line breaks.
pub open spec fn newlines(n: nat) -> Seq<char> {
    Seq::new(n, |i: int| '\n')
}

pub open spec fn md_ensure(st: MdView, n: nat) -> MdView {
    if st.pending < n { MdView { pending: n, ..st } } else { st }
}

pub open spec fn md_flush(st: MdView) -> MdView {
    if st.pending > 0 { MdView { buf: st.buf + newlines(st.pending), pending: 0, ..st } } else { st }
}

/// Writes `s` after the owed line breaks (nothing for an empty `s`).
pub open spec fn md_push(st: MdView, s: Seq<char>) -> MdView {
    if s.len() == 0 { st } else { let f = md_flush(st); MdView { buf: f.buf + s, ..f } }
}

/// Inline output goes to the cell in progress inside a table, else to the
/// buffer.
pub open spec fn md_inline(st: MdView, s: Seq<char>) -> MdView {
    match st.table {
        Some(t) => MdView { table: Some(TableView { cell: t.cell + s, ..t }), ..st },
        None => md_push(st, s),
    }
}

/// `n` spaces.
pub open spec fn spaces(n: nat) -> Seq<char> {
    Seq::new(n, |i: int| ' ')
}

/// The prefix of a list item and the state after it: indentation of two
/// spaces per enclosing list, then the item's number and `. ` in an
/// ordered list (whose counter moves on) or `* `; nothing outside lists.
pub open spec fn md_list_prefix(st: MdView) -> (MdView, Seq<char>) {
    let d = st.lists.len();
    if d == 0 {
        (st, Seq::empty())
    } else {
        let ind = spaces((2 * (d - 1)) as nat);
        match st.lists.last() {
            ListKind::Ordered(n) => (
                MdView { lists: st.lists.update(d - 1, ListKind::Ordered(if n == usize::MAX { 0 } else { (n + 1) as usize })), ..st },
                ind + decimal(n as nat) + seq!['.', ' '],
            ),
            ListKind::Unordered => (st, ind + seq!['*', ' ']),
        }
    }
}

impl State {
    pub fn new(in_pre: bool) -> (r: State)
        ensures
            r@ == fresh_state(in_pre),
    {
        State { buf: Vec::new(), pending_nl: 0, in_pre, list_stack: Vec::new(), table_state: None }
    }

    pub fn ensure_newlines(&mut self, n: usize)
        ensures
            final(self)@ == md_ensure(old(self)@, n as nat),
    {
        if self.pending_nl < n {
            self.pending_nl = n;
        }
    }

    pub fn flush_pending(&mut self)
        ensures
            final(self)@ == md_flush(old(self)@),
    {
        if self.pending_nl > 0 {
            let ghost b = self.buf@;
            let mut i: usize = 0;
            while i < self.pending_nl
                invariant
                    i <= self.pending_nl,
                    self.pending_nl == old(self).pending_nl,
                    self.in_pre == old(self).in_pre,
                    self.list_stack@ == old(self).list_stack@,
                    self.table_state == old(self).table_state,
                    b == old(self).buf@,
                    self.buf@ == b + newlines(i as nat),
                decreases self.pending_nl - i,
            {
                self.buf.push('\n');
                assert(self.buf@ =~= b + newlines((i + 1) as nat));
                i = i + 1;
            }
            self.pending_nl = 0;
        }
    }

    pub fn push_str(&mut self, s: &Vec<char>)
        ensures
            final(self)@ == md_push(old(self)@, s@),
    {
        if s.len() == 0 {
            return;
        }
        self.flush_pending();
        push_chars(&mut self.buf, s);
    }

    pub fn list_depth(&self) -> (r: usize)
        ensures
            r == self@.lists.len(),
    {
        self.list_stack.len()
    }

    pub fn list_prefix(&mut self) -> (r: Vec<char>)
        ensures
            (final(self)@, r@) == md_list_prefix(old(self)@),
    {
        let depth = self.list_stack.len();
        if depth == 0 {
            return Vec::new();
        }
        let mut out: Vec<char> = Vec::new();
        let mut i: usize = 0;
        while i < depth - 1
            invariant
                depth >= 1,
                i <= depth - 1,
                out@ == spaces((2 * i) as nat),
            decreases depth - 1 - i,
        {
            out.push(' ');
            out.push(' ');
            assert(out@ =~= spaces((2 * (i + 1)) as nat));
            i = i + 1;
        }
        let last = self.list_stack.pop().unwrap();
        match last {
            ListKind::Ordered(n) => {
                let digits = usize_to_decimal(n);
                push_chars(&mut out, &digits);
                out.push('.');
                out.push(' ');
                let next: usize = if n == usize::MAX { 0 } else { n + 1 };
                self.list_stack.push(ListKind::Ordered(next));
                assert(self.list_stack@ =~= old(self).list_stack@.update(depth - 1, ListKind::Ordered(next)));
            },
            ListKind::Unordered => {
                self.list_stack.push(ListKind::Unordered);
                assert(self.list_stack@ =~= old(self).list_stack@);
                out.push('*');
                out.push(' ');
            },
        }
        out
    }

    /// Writes inline output (see `md_inline`).
    pub fn push_inline(&mut self, s: &Vec<char>)
        ensures
            final(self)@ == md_inline(old(self)@, s@),
    {
        match self.table_state.take() {
            Some(mut ts) => {
                push_chars(&mut ts.current_cell, s);
                self.table_state = Some(ts);
            },
            None => {
                self.push_str(s);
            },
        }
    }
}

// ---------------------------------------------------------------------------
// The tree walk, as spec functions over the plain-value model

/// The tree the emitter walks: node kinds and children.
pub struct TreeView {
    pub kinds: Seq<NodeKindView>,
    pub ch: Seq<Seq<usize>>,
}

pub open spec fn tree_of(m: &DocModel) -> TreeView {
    TreeView { kinds: m.kinds_v(), ch: m.children_v() }
}

/// Deepest element nesting that is emitted.
pub const MAX_DEPTH: usize = 200;

pub open spec fn kids_of(t: TreeView, k: int) -> Seq<usize> {
    if 0 <= k < t.ch.len() { t.ch[k] } else { Seq::empty() }
}

pub open spec fn name_of(t: TreeView, k: int) -> Seq<char> {
    if 0 <= k < t.kinds.len() {
        match t.kinds[k] {
            NodeKindView::Element { name, .. } => name,
            _ => Seq::empty(),
        }
    } else {
        Seq::empty()
    }
}

pub open spec fn attrs_of(t: TreeView, k: int) -> Seq<crate::html::AttrView> {
    if 0 <= k < t.kinds.len() { crate::convert::parser::elem_attrs(t.kinds, k) } else { Seq::empty() }
}

pub open spec fn is_element(t: TreeView, k: int) -> bool {
    0 <= k < t.kinds.len() && t.kinds[k] is Element
}

/// Whitespace-normalized text of the subtree of `k`.
pub open spec fn inline_text(t: TreeView, k: int) -> Seq<char> {
    normalize_inline(crate::dom::element_text(t.kinds, t.ch, k))
}

/// How the emitter treats an element, by its name.
pub enum Tag {
    Meta,
    Br,
    Hr,
    Heading(usize),
    Block,
    Pre,
    Blockquote,
    Img,
    Code,
    Strong,
    Em,
    Del,
    A,
    Inline,
    Ul,
    Ol,
    Li,
    Table,
    Thead,
    Tbody,
    Tr,
    Cell,
    Other,
}

pub open spec fn tag_class(n: Seq<char>) -> Tag {
    if n == "script"@ || n == "style"@ || n == "head"@ || n == "noscript"@ || n == "template"@ {
        Tag::Meta
    } else if n == "br"@ {
        Tag::Br
    } else if n == "hr"@ {
        Tag::Hr
    } else if n == "h1"@ {
        Tag::Heading(1)
    } else if n == "h2"@ {
        Tag::Heading(2)
    } else if n == "h3"@ {
        Tag::Heading(3)
    } else if n == "h4"@ {
        Tag::Heading(4)
    } else if n == "h5"@ {
        Tag::Heading(5)
    } else if n == "h6"@ {
        Tag::Heading(6)
    } else if n == "p"@ || n == "div"@ || n == "section"@ || n == "article"@ || n == "main"@ || n == "aside"@
        || n == "header"@ || n == "footer"@ || n == "nav"@ || n == "figure"@ || n == "figcaption"@
        || n == "details"@ || n == "summary"@ || n == "body"@ || n == "html"@ {
        Tag::Block
    } else if n == "pre"@ {
        Tag::Pre
    } else if n == "blockquote"@ {
        Tag::Blockquote
    } else if n == "img"@ {
        Tag::Img
    } else if n == "code"@ {
        Tag::Code
    } else if n == "strong"@ || n == "b"@ {
        Tag::Strong
    } else if n == "em"@ || n == "i"@ {
        Tag::Em
    } else if n == "del"@ || n == "s"@ || n == "strike"@ {
        Tag::Del
    } else if n == "a"@ {
        Tag::A
    } else if n == "span"@ || n == "abbr"@ || n == "cite"@ || n == "kbd"@ || n == "mark"@ || n == "q"@
        || n == "small"@ || n == "sub"@ || n == "sup"@ || n == "time"@ || n == "var"@ || n == "wbr"@
        || n == "bdi"@ || n == "bdo"@ || n == "u"@ || n == "ins"@ || n == "label"@ {
        Tag::Inline
    } else if n == "ul"@ {
        Tag::Ul
    } else if n == "ol"@ {
        Tag::Ol
    } else if n == "li"@ {
        Tag::Li
    } else if n == "table"@ {
        Tag::Table
    } else if n == "thead"@ {
        Tag::Thead
    } else if n == "tbody"@ || n == "tfoot"@ {
        Tag::Tbody
    } else if n == "tr"@ {
        Tag::Tr
    } else if n == "th"@ || n == "td"@ {
        Tag::Cell
    } else {
        Tag::Other
    }
}

pub fn classify(n: &str) -> (r: Tag)
    ensures
        r == tag_class(n@),
{
    if str_eq(n, "script") || str_eq(n, "style") || str_eq(n, "head") || str_eq(n, "noscript") || str_eq(n, "template") {
        Tag::Meta
    } else if str_eq(n, "br") {
        Tag::Br
    } else if str_eq(n, "hr") {
        Tag::Hr
    } else if str_eq(n, "h1") {
        Tag::Heading(1)
    } else if str_eq(n, "h2") {
        Tag::Heading(2)
    } else if str_eq(n, "h3") {
        Tag::Heading(3)
    } else if str_eq(n, "h4") {
        Tag::Heading(4)
    } else if str_eq(n, "h5") {
        Tag::Heading(5)
    } else if str_eq(n, "h6") {
        Tag::Heading(6)
    } else if str_eq(n, "p") || str_eq(n, "div") || str_eq(n, "section") || str_eq(n, "article") || str_eq(n, "main")
        || str_eq(n, "aside") || str_eq(n, "header") || str_eq(n, "footer") || str_eq(n, "nav") || str_eq(n, "figure")
        || str_eq(n, "figcaption") || str_eq(n, "details") || str_eq(n, "summary") || str_eq(n, "body") || str_eq(n, "html") {
        Tag::Block
    } else if str_eq(n, "pre") {
        Tag::Pre
    } else if str_eq(n, "blockquote") {
        Tag::Blockquote
    } else if str_eq(n, "img") {
        Tag::Img
    } else if str_eq(n, "code") {
        Tag::Code
    } else if str_eq(n, "strong") || str_eq(n, "b") {
        Tag::Strong
    } else if str_eq(n, "em") || str_eq(n, "i") {
        Tag::Em
    } else if str_eq(n, "del") || str_eq(n, "s") || str_eq(n, "strike") {
        Tag::Del
    } else if str_eq(n, "a") {
        Tag::A
    } else if str_eq(n, "span") || str_eq(n, "abbr") || str_eq(n, "cite") || str_eq(n, "kbd") || str_eq(n, "mark")
        || str_eq(n, "q") || str_eq(n, "small") || str_eq(n, "sub") || str_eq(n, "sup") || str_eq(n, "time")
        || str_eq(n, "var") || str_eq(n, "wbr") || str_eq(n, "bdi") || str_eq(n, "bdo") || str_eq(n, "u")
        || str_eq(n, "ins") || str_eq(n, "label") {
        Tag::Inline
    } else if str_eq(n, "ul") {
        Tag::Ul
    } else if str_eq(n, "ol") {
        Tag::Ol
    } else if str_eq(n, "li") {
        Tag::Li
    } else if str_eq(n, "table") {
        Tag::Table
    } else if str_eq(n, "thead") {
        Tag::Thead
    } else if str_eq(n, "tbody") || str_eq(n, "tfoot") {
        Tag::Tbody
    } else if str_eq(n, "tr") {
        Tag::Tr
    } else if str_eq(n, "th") || str_eq(n, "td") {
        Tag::Cell
    } else {
        Tag::Other
    }
}

/// `t` without as many leading copies of `p` as there are.
pub open spec fn strip_prefix_all(t: Seq<char>, p: Seq<char>) -> Seq<char>
    decreases t.len(),
{
    if p.len() > 0 && p.len() <= t.len() && t.take(p.len() as int) == p {
        strip_prefix_all(t.skip(p.len() as int), p)
    } else {
        t
    }
}

/// The first of `toks` starting with `language-`, without that prefix
/// (repeated prefixes are all removed).
pub open spec fn language_token(toks: Seq<Seq<char>>) -> Option<Seq<char>>
    decreases toks.len(),
{
    if toks.len() == 0 {
        None
    } else if crate::text::seq_starts_with(toks[0], "language-"@) {
        Some(strip_prefix_all(toks[0], "language-"@))
    } else {
        language_token(toks.drop_first())
    }
}

/// The first child of `k` that is a `<code>` element, as an index into its
/// children, or -1.
pub open spec fn first_code_child(t: TreeView, kids: Seq<usize>, j: int) -> int
    decreases kids.len() - j,
{
    if j < 0 || j >= kids.len() {
        -1
    } else if is_element(t, kids[j] as int) && name_of(t, kids[j] as int) == "code"@ {
        j
    } else {
        first_code_child(t, kids, j + 1)
    }
}

/// The language of a `<pre>`: from the `class` of its first `<code>` child.
pub open spec fn md_language(t: TreeView, k: int) -> Option<Seq<char>> {
    let kids = kids_of(t, k);
    let j = first_code_child(t, kids, 0);
    if j < 0 {
        None
    } else {
        match attr_plain(attrs_of(t, kids[j] as int), "class"@) {
            None => None,
            Some(cls) => language_token(crate::text::words(cls, crate::text::unicode_ws_sep())),
        }
    }
}

/// The value of a decimal digit sequence.
pub open spec fn digits_value(s: Seq<char>) -> nat
    decreases s.len(),
{
    if s.len() == 0 { 0 } else { digits_value(s.drop_last()) * 10 + ((s.last() as u32) - ('0' as u32)) as nat }
}

/// The digits of a `usize` literal: without one leading `+`.
pub open spec fn usize_body(s: Seq<char>) -> Seq<char> {
    if s.len() > 0 && s[0] == '+' { s.drop_first() } else { s }
}

pub open spec fn all_digits(b: Seq<char>) -> bool {
    forall|i: int| 0 <= i < b.len() ==> '0' <= #[trigger] b[i] <= '9'
}

/// What `str::parse::<usize>` gives: an optional `+`, then at least one
/// ASCII digit and nothing else, with a value that fits.
pub open spec fn parse_usize(s: Seq<char>) -> Option<usize> {
    let body = usize_body(s);
    if body.len() > 0 && all_digits(body) && digits_value(body) <= usize::MAX {
        Some(digits_value(body) as usize)
    } else {
        None
    }
}

pub open spec fn set_in_head(st: MdView, b: bool) -> MdView {
    match st.table {
        Some(x) => MdView { table: Some(TableView { in_head: b, ..x }), ..st },
        None => st,
    }
}

pub open spec fn fence_len(mx: nat) -> nat {
    let f: nat = if mx < usize::MAX { (mx + 1) as nat } else { mx };
    if f < 3 { 3 } else { f }
}

pub open spec fn md_node(t: TreeView, k: int, d: int, st: MdView) -> MdView
    decreases 200 - d, 1int, 0int,
{
    if !(0 <= k < t.kinds.len()) {
        st
    } else {
        match t.kinds[k] {
            NodeKindView::Text { text } => if st.in_pre {
                MdView { buf: st.buf + text, ..st }
            } else if trim(normalize_inline(text)).len() == 0 && st.pending > 0 {
                st
            } else {
                md_inline(st, normalize_inline(text))
            },
            NodeKindView::Element { .. } => md_element(t, k, d, st),
            NodeKindView::Other => st,
        }
    }
}

pub open spec fn md_children(t: TreeView, kids: Seq<usize>, d: int, st: MdView) -> MdView
    decreases 200 - d, 2int, kids.len(),
{
    if kids.len() == 0 {
        st
    } else {
        md_node(t, kids.last() as int, d, md_children(t, kids.drop_last(), d, st))
    }
}

pub open spec fn md_element(t: TreeView, k: int, d: int, st: MdView) -> MdView
    decreases 200 - d, 0int, 0int,
{
    if d >= 200 {
        st
    } else {
        md_dispatch(t, k, d + 1, st)
    }
}

pub open spec fn md_li_children(t: TreeView, kids: Seq<usize>, d: int, st: MdView) -> MdView
    decreases 200 - d, 2int, kids.len(),
{
    if kids.len() == 0 {
        st
    } else {
        let prev = md_li_children(t, kids.drop_last(), d, st);
        let c = kids.last() as int;
        if is_element(t, c) {
            let p2 = if tag_class(name_of(t, c)) is Ul || tag_class(name_of(t, c)) is Ol { md_ensure(prev, 1) } else { prev };
            md_element(t, c, d, p2)
        } else {
            md_node(t, c, d, prev)
        }
    }
}

pub open spec fn md_quote_lines(st: MdView, lines: Seq<Seq<char>>) -> MdView
    decreases lines.len(),
{
    if lines.len() == 0 {
        st
    } else {
        let a = md_push(md_push(md_quote_lines(st, lines.drop_last()), seq!['>', ' ']), lines.last());
        MdView { buf: a.buf.push('\n'), pending: 0, ..a }
    }
}

/// Emission of element `k`, whose children are at depth `d`.
pub open spec fn md_dispatch(t: TreeView, k: int, d: int, st: MdView) -> MdView
    decreases 200 - d, 4int, 0int,
{
    let kids = kids_of(t, k);
    let attrs = attrs_of(t, k);
    match tag_class(name_of(t, k)) {
        Tag::Meta => st,
        Tag::Br => match st.table {
            Some(x) => MdView { table: Some(TableView { cell: x.cell.push(' '), ..x }), ..st },
            None => md_push(st, seq![' ', ' ', '\n']),
        },
        Tag::Hr => md_ensure(md_push(md_ensure(st, 2), seq!['-', '-', '-']), 2),
        Tag::Heading(level) => {
            let s1 = md_push(md_push(md_ensure(st, 2), repeat(seq!['#'], level as nat)), seq![' ']);
            md_ensure(md_children(t, kids, d, s1), 2)
        },
        Tag::Block => md_ensure(md_children(t, kids, d, md_ensure(st, 2)), 2),
        Tag::Pre => {
            let s1 = md_ensure(st, 2);
            let lang = match md_language(t, k) { Some(l) => l, None => Seq::empty() };
            let content = md_children(t, kids, d, fresh_state(true)).buf;
            let fence = repeat(seq!['`'], fence_len(backtick_state(content).0));
            let s2 = md_push(md_push(s1, fence), lang);
            let s3 = MdView { buf: s2.buf.push('\n') + content, pending: 0, ..s2 };
            let s4 = if s3.buf.len() > 0 && s3.buf.last() == '\n' { s3 } else { MdView { buf: s3.buf.push('\n'), ..s3 } };
            md_ensure(MdView { buf: s4.buf + fence, ..s4 }, 2)
        },
        Tag::Blockquote => {
            let inner = finalize_spec(md_children(t, kids, d, fresh_state(false)).buf);
            md_ensure(md_quote_lines(md_ensure(st, 2), lines_of(inner)), 2)
        },
        Tag::Img => {
            let alt = match attr_plain(attrs, "alt"@) { Some(a) => a, None => Seq::empty() };
            let src = match attr_plain(attrs, "src"@) { Some(a) => a, None => Seq::empty() };
            if src.len() == 0 { st } else { md_inline(st, seq!['!', '['] + alt + seq![']', '('] + src + seq![')']) }
        },
        Tag::Code => if st.in_pre {
            md_children(t, kids, d, st)
        } else {
            let text = inline_text(t, k);
            let tick = if text.contains('`') { seq!['`', '`'] } else { seq!['`'] };
            md_inline(st, tick + text + tick)
        },
        Tag::Strong => md_wrapped(st, inline_text(t, k), seq!['*', '*']),
        Tag::Em => md_wrapped(st, inline_text(t, k), seq!['*']),
        Tag::Del => md_wrapped(st, inline_text(t, k), seq!['~', '~']),
        Tag::A => {
            let tr = trim(finalize_spec(md_children(t, kids, d, fresh_state(false)).buf));
            if tr.len() == 0 {
                st
            } else {
                match attr_plain(attrs, "href"@) {
                    Some(h) => md_inline(st, seq!['['] + tr + seq![']', '('] + h + seq![')']),
                    None => md_inline(st, tr),
                }
            }
        },
        Tag::Inline => md_children(t, kids, d, st),
        Tag::Ul => md_list(t, kids, d, st, ListKind::Unordered),
        Tag::Ol => md_list(t, kids, d, st, ListKind::Ordered(match attr_plain(attrs, "start"@) {
            Some(v) => match parse_usize(v) { Some(x) => x, None => 1 },
            None => 1,
        })),
        Tag::Li => if st.in_pre {
            md_children(t, kids, d, st)
        } else {
            let (s1, prefix) = md_list_prefix(md_ensure(st, 1));
            md_li_children(t, kids, d, md_push(s1, prefix))
        },
        Tag::Table => {
            let s1 = md_ensure(st, 2);
            let s2 = md_children(t, kids, d, MdView { table: Some(empty_table()), ..s1 });
            let ts = match s2.table { Some(x) => x, None => empty_table() };
            let s3 = md_flush(MdView { table: None, ..s2 });
            md_ensure(MdView { buf: s3.buf + gfm_table(ts), pending: 0, table: s1.table, ..s3 }, 2)
        },
        Tag::Thead => set_in_head(md_children(t, kids, d, set_in_head(st, true)), false),
        Tag::Tbody => md_children(t, kids, d, set_in_head(st, false)),
        Tag::Tr => {
            let s1 = match st.table {
                Some(x) => MdView { table: Some(TableView { row: Seq::empty(), ..x }), ..st },
                None => st,
            };
            let s2 = md_children(t, kids, d, s1);
            match s2.table {
                Some(x) => if x.in_head || x.headers.len() == 0 {
                    MdView { table: Some(TableView { headers: x.row, row: Seq::empty(), ..x }), ..s2 }
                } else {
                    MdView { table: Some(TableView { rows: x.rows.push(x.row), row: Seq::empty(), ..x }), ..s2 }
                },
                None => s2,
            }
        },
        Tag::Cell => {
            let s1 = match st.table {
                Some(x) => MdView { table: Some(TableView { cell: Seq::empty(), ..x }), ..st },
                None => st,
            };
            let s2 = md_children(t, kids, d, s1);
            match s2.table {
                Some(x) => MdView { table: Some(TableView { row: x.row.push(trim(x.cell)), cell: Seq::empty(), ..x }), ..s2 },
                None => s2,
            }
        },
        Tag::Other => md_children(t, kids, d, st),
    }
}

/// Emphasis: `mark`, the text, `mark`; nothing for blank text.
pub open spec fn md_wrapped(st: MdView, text: Seq<char>, mark: Seq<char>) -> MdView {
    if trim(text).len() == 0 { st } else { md_inline(st, mark + text + mark) }
}

/// A list: a blank line before and after an outermost list, the list kind
/// pushed while the items are emitted.
pub open spec fn md_list(t: TreeView, kids: Seq<usize>, d: int, st: MdView, kind: ListKind) -> MdView
    decreases 200 - d, 3int, 0int,
{
    let s1 = if st.lists.len() == 0 { md_ensure(st, 2) } else { st };
    let s2 = md_children(t, kids, d, MdView { lists: s1.lists.push(kind), ..s1 });
    let s3 = MdView { lists: if s2.lists.len() > 0 { s2.lists.drop_last() } else { s2.lists }, ..s2 };
    if s3.lists.len() == 0 { md_ensure(s3, 2) } else { s3 }
}

/// The writer only ever appends: `a`'s text is a prefix of `b`'s.
pub open spec fn md_extends(a: MdView, b: MdView) -> bool {
    a.buf.len() <= b.buf.len() && b.buf.take(a.buf.len() as int) == a.buf
}

proof fn lemma_extends_trans(a: MdView, b: MdView, c: MdView)
    requires
        md_extends(a, b),
        md_extends(b, c),
    ensures
        md_extends(a, c),
{
    assert(c.buf.take(a.buf.len() as int) == c.buf.take(b.buf.len() as int).take(a.buf.len() as int));
}

proof fn lemma_extends_append(a: MdView, b: MdView, s: Seq<char>)
    requires
        b.buf == a.buf + s,
    ensures
        md_extends(a, b),
{
    assert(b.buf.take(a.buf.len() as int) == a.buf);
}

proof fn lemma_basic_grows(st: MdView, s: Seq<char>, n: nat)
    ensures
        md_extends(st, md_ensure(st, n)),
        md_extends(st, md_flush(st)),
        md_extends(st, md_push(st, s)),
        md_extends(st, md_inline(st, s)),
        md_extends(st, md_list_prefix(st).0),
{
    assert(st.buf.take(st.buf.len() as int) == st.buf);
    if st.pending > 0 {
        lemma_extends_append(st, md_flush(st), newlines(st.pending));
    }
    if s.len() > 0 {
        lemma_extends_append(md_flush(st), md_push(st, s), s);
        lemma_extends_trans(st, md_flush(st), md_push(st, s));
    }
}

proof fn lemma_quote_grows(st: MdView, lines: Seq<Seq<char>>)
    ensures
        md_extends(st, md_quote_lines(st, lines)),
    decreases lines.len(),
{
    assert(st.buf.take(st.buf.len() as int) == st.buf);
    if lines.len() > 0 {
        lemma_quote_grows(st, lines.drop_last());
        let q = md_quote_lines(st, lines.drop_last());
        let a1 = md_push(q, seq!['>', ' ']);
        let a = md_push(a1, lines.last());
        lemma_basic_grows(q, seq!['>', ' '], 0);
        lemma_basic_grows(a1, lines.last(), 0);
        lemma_extends_trans(q, a1, a);
        assert(a.buf.push('\n') == a.buf + seq!['\n']);
        lemma_extends_append(a, md_quote_lines(st, lines), seq!['\n']);
        lemma_extends_trans(q, a, md_quote_lines(st, lines));
        lemma_extends_trans(st, q, md_quote_lines(st, lines));
    }
}

proof fn lemma_node_grows(t: TreeView, k: int, d: int, st: MdView)
    ensures
        md_extends(st, md_node(t, k, d, st)),
    decreases 200 - d, 1int, 0int,
{
    assert(st.buf.take(st.buf.len() as int) == st.buf);
    if 0 <= k < t.kinds.len() {
        match t.kinds[k] {
            NodeKindView::Text { text } => {
                if st.in_pre {
                    lemma_extends_append(st, md_node(t, k, d, st), text);
                } else {
                    lemma_basic_grows(st, normalize_inline(text), 0);
                }
            },
            NodeKindView::Element { .. } => {
                lemma_element_grows(t, k, d, st);
            },
            NodeKindView::Other => {},
        }
    }
}

proof fn lemma_children_grows(t: TreeView, kids: Seq<usize>, d: int, st: MdView)
    ensures
        md_extends(st, md_children(t, kids, d, st)),
    decreases 200 - d, 2int, kids.len(),
{
    assert(st.buf.take(st.buf.len() as int) == st.buf);
    if kids.len() > 0 {
        lemma_children_grows(t, kids.drop_last(), d, st);
        let prev = md_children(t, kids.drop_last(), d, st);
        lemma_node_grows(t, kids.last() as int, d, prev);
        lemma_extends_trans(st, prev, md_children(t, kids, d, st));
    }
}

proof fn lemma_li_grows(t: TreeView, kids: Seq<usize>, d: int, st: MdView)
    ensures
        md_extends(st, md_li_children(t, kids, d, st)),
    decreases 200 - d, 2int, kids.len(),
{
    assert(st.buf.take(st.buf.len() as int) == st.buf);
    if kids.len() > 0 {
        lemma_li_grows(t, kids.drop_last(), d, st);
        let prev = md_li_children(t, kids.drop_last(), d, st);
        let c = kids.last() as int;
        if is_element(t, c) {
            let p2 = if tag_class(name_of(t, c)) is Ul || tag_class(name_of(t, c)) is Ol { md_ensure(prev, 1) } else { prev };
            lemma_basic_grows(prev, Seq::empty(), 1);
            assert(md_extends(prev, p2));
            lemma_element_grows(t, c, d, p2);
            lemma_extends_trans(prev, p2, md_li_children(t, kids, d, st));
        } else {
            lemma_node_grows(t, c, d, prev);
        }
        lemma_extends_trans(st, prev, md_li_children(t, kids, d, st));
    }
}

proof fn lemma_element_grows(t: TreeView, k: int, d: int, st: MdView)
    ensures
        md_extends(st, md_element(t, k, d, st)),
    decreases 200 - d, 0int, 0int,
{
    assert(st.buf.take(st.buf.len() as int) == st.buf);
    if d < 200 {
        lemma_dispatch_grows(t, k, d + 1, st);
    }
}

proof fn lemma_list_grows(t: TreeView, kids: Seq<usize>, d: int, st: MdView, kind: ListKind)
    ensures
        md_extends(st, md_list(t, kids, d, st, kind)),
    decreases 200 - d, 3int, 0int,
{
    let s1 = if st.lists.len() == 0 { md_ensure(st, 2) } else { st };
    let s1b = MdView { lists: s1.lists.push(kind), ..s1 };
    let s2 = md_children(t, kids, d, s1b);
    let s3 = MdView { lists: if s2.lists.len() > 0 { s2.lists.drop_last() } else { s2.lists }, ..s2 };
    lemma_basic_grows(st, Seq::empty(), 2);
    assert(md_extends(st, s1));
    lemma_children_grows(t, kids, d, s1b);
    lemma_extends_trans(st, s1b, s2);
    lemma_basic_grows(s3, Seq::empty(), 2);
    lemma_extends_trans(st, s3, md_list(t, kids, d, st, kind));
}

proof fn lemma_dispatch_grows(t: TreeView, k: int, d: int, st: MdView)
    ensures
        md_extends(st, md_dispatch(t, k, d, st)),
    decreases 200 - d, 4int, 0int,
{
    let kids = kids_of(t, k);
    let attrs = attrs_of(t, k);
    let r = md_dispatch(t, k, d, st);
    assert(st.buf.take(st.buf.len() as int) == st.buf);
    let e2 = md_ensure(st, 2);
    lemma_basic_grows(st, Seq::empty(), 2);
    match tag_class(name_of(t, k)) {
        Tag::Meta => {},
        Tag::Br => {
            lemma_basic_grows(st, seq![' ', ' ', '\n'], 0);
        },
        Tag::Hr => {
            let a = md_push(e2, seq!['-', '-', '-']);
            lemma_basic_grows(e2, seq!['-', '-', '-'], 2);
            lemma_basic_grows(a, Seq::empty(), 2);
            lemma_extends_trans(st, e2, a);
            lemma_extends_trans(st, a, r);
        },
        Tag::Heading(level) => {
            let h = repeat(seq!['#'], level as nat);
            let a = md_push(e2, h);
            let s1 = md_push(a, seq![' ']);
            lemma_basic_grows(e2, h, 0);
            lemma_basic_grows(a, seq![' '], 0);
            lemma_children_grows(t, kids, d, s1);
            let c = md_children(t, kids, d, s1);
            lemma_basic_grows(c, Seq::empty(), 2);
            lemma_extends_trans(st, e2, a);
            lemma_extends_trans(st, a, s1);
            lemma_extends_trans(st, s1, c);
            lemma_extends_trans(st, c, r);
        },
        Tag::Block => {
            lemma_children_grows(t, kids, d, e2);
            let c = md_children(t, kids, d, e2);
            lemma_basic_grows(c, Seq::empty(), 2);
            lemma_extends_trans(st, e2, c);
            lemma_extends_trans(st, c, r);
        },
        Tag::Pre => {
            let lang = match md_language(t, k) { Some(l) => l, None => Seq::empty() };
            let content = md_children(t, kids, d, fresh_state(true)).buf;
            let fence = repeat(seq!['`'], fence_len(backtick_state(content).0));
            let a = md_push(e2, fence);
            let s2 = md_push(a, lang);
            let s3 = MdView { buf: s2.buf.push('\n') + content, pending: 0, ..s2 };
            let s4 = if s3.buf.len() > 0 && s3.buf.last() == '\n' { s3 } else { MdView { buf: s3.buf.push('\n'), ..s3 } };
            let s5 = MdView { buf: s4.buf + fence, ..s4 };
            lemma_basic_grows(e2, fence, 0);
            lemma_basic_grows(a, lang, 0);
            assert(s2.buf.push('\n') + content == s2.buf + (seq!['\n'] + content));
            lemma_extends_append(s2, s3, seq!['\n'] + content);
            if !(s3.buf.len() > 0 && s3.buf.last() == '\n') {
                assert(s3.buf.push('\n') == s3.buf + seq!['\n']);
                lemma_extends_append(s3, s4, seq!['\n']);
            } else {
                assert(s3.buf.take(s3.buf.len() as int) == s3.buf);
            }
            lemma_extends_append(s4, s5, fence);
            lemma_basic_grows(s5, Seq::empty(), 2);
            lemma_extends_trans(st, e2, a);
            lemma_extends_trans(st, a, s2);
            lemma_extends_trans(st, s2, s3);
            lemma_extends_trans(st, s3, s4);
            lemma_extends_trans(st, s4, s5);
            lemma_extends_trans(st, s5, r);
        },
        Tag::Blockquote => {
            let inner = finalize_spec(md_children(t, kids, d, fresh_state(false)).buf);
            lemma_quote_grows(e2, lines_of(inner));
            let q = md_quote_lines(e2, lines_of(inner));
            lemma_basic_grows(q, Seq::empty(), 2);
            lemma_extends_trans(st, e2, q);
            lemma_extends_trans(st, q, r);
        },
        Tag::Img => {
            let alt = match attr_plain(attrs, "alt"@) { Some(a) => a, None => Seq::empty() };
            let src = match attr_plain(attrs, "src"@) { Some(a) => a, None => Seq::empty() };
            lemma_basic_grows(st, seq!['!', '['] + alt + seq![']', '('] + src + seq![')'], 0);
        },
        Tag::Code => {
            if st.in_pre {
                lemma_children_grows(t, kids, d, st);
            } else {
                let text = inline_text(t, k);
                let tick = if text.contains('`') { seq!['`', '`'] } else { seq!['`'] };
                lemma_basic_grows(st, tick + text + tick, 0);
            }
        },
        Tag::Strong => {
            lemma_basic_grows(st, seq!['*', '*'] + inline_text(t, k) + seq!['*', '*'], 0);
        },
        Tag::Em => {
            lemma_basic_grows(st, seq!['*'] + inline_text(t, k) + seq!['*'], 0);
        },
        Tag::Del => {
            lemma_basic_grows(st, seq!['~', '~'] + inline_text(t, k) + seq!['~', '~'], 0);
        },
        Tag::A => {
            let tr = trim(finalize_spec(md_children(t, kids, d, fresh_state(false)).buf));
            match attr_plain(attrs, "href"@) {
                Some(h) => lemma_basic_grows(st, seq!['['] + tr + seq![']', '('] + h + seq![')'], 0),
                None => lemma_basic_grows(st, tr, 0),
            }
        },
        Tag::Inline => {
            lemma_children_grows(t, kids, d, st);
        },
        Tag::Ul => {
            lemma_list_grows(t, kids, d, st, ListKind::Unordered);
        },
        Tag::Ol => {
            lemma_list_grows(t, kids, d, st, ListKind::Ordered(match attr_plain(attrs, "start"@) {
                Some(v) => match parse_usize(v) { Some(x) => x, None => 1 },
                None => 1,
            }));
        },
        Tag::Li => {
            if st.in_pre {
                lemma_children_grows(t, kids, d, st);
            } else {
                let e1 = md_ensure(st, 1);
                let (s1, prefix) = md_list_prefix(e1);
                let p = md_push(s1, prefix);
                lemma_basic_grows(st, Seq::empty(), 1);
                lemma_basic_grows(e1, Seq::empty(), 0);
                lemma_basic_grows(s1, prefix, 0);
                lemma_li_grows(t, kids, d, p);
                lemma_extends_trans(st, e1, s1);
                lemma_extends_trans(st, s1, p);
                lemma_extends_trans(st, p, r);
            }
        },
        Tag::Table => {
            let s1 = MdView { table: Some(empty_table()), ..e2 };
            let s2 = md_children(t, kids, d, s1);
            let ts = match s2.table { Some(x) => x, None => empty_table() };
            let s2b = MdView { table: None, ..s2 };
            let s3 = md_flush(s2b);
            let s4 = MdView { buf: s3.buf + gfm_table(ts), pending: 0, table: e2.table, ..s3 };
            lemma_children_grows(t, kids, d, s1);
            lemma_basic_grows(s2b, Seq::empty(), 0);
            lemma_extends_append(s3, s4, gfm_table(ts));
            lemma_basic_grows(s4, Seq::empty(), 2);
            lemma_extends_trans(st, s1, s2);
            lemma_extends_trans(st, s2b, s3);
            lemma_extends_trans(st, s3, s4);
            lemma_extends_trans(st, s4, r);
        },
        Tag::Thead => {
            lemma_children_grows(t, kids, d, set_in_head(st, true));
        },
        Tag::Tbody => {
            lemma_children_grows(t, kids, d, set_in_head(st, false));
        },
        Tag::Tr => {
            let s1 = match st.table {
                Some(x) => MdView { table: Some(TableView { row: Seq::empty(), ..x }), ..st },
                None => st,
            };
            lemma_children_grows(t, kids, d, s1);
        },
        Tag::Cell => {
            let s1 = match st.table {
                Some(x) => MdView { table: Some(TableView { cell: Seq::empty(), ..x }), ..st },
                None => st,
            };
            lemma_children_grows(t, kids, d, s1);
        },
        Tag::Other => {
            lemma_children_grows(t, kids, d, st);
        },
    }
}

proof fn lemma_repeat_hash(n: nat)
    ensures
        repeat(seq!['#'], n).len() == n,
        forall|i: int| 0 <= i < n ==> #[trigger] repeat(seq!['#'], n)[i] == '#',
    decreases n,
{
    if n > 0 {
        lemma_repeat_hash((n - 1) as nat);
        let p = repeat(seq!['#'], (n - 1) as nat);
        assert forall|i: int| 0 <= i < n implies #[trigger] repeat(seq!['#'], n)[i] == '#' by {
            if i < n - 1 {
                assert(repeat(seq!['#'], n)[i] == p[i]);
            }
        }
    }
}

/// `<h1>` to `<h6>` are headings of levels 1 to 6.
proof fn lemma_heading_class(c: char, level: nat)
    requires
        1 <= level <= 6,
        c as int == '0' as int + level,
    ensures
        tag_class(seq!['h', c]) == Tag::Heading(level as usize),
{
    reveal_strlit("script");
    reveal_strlit("style");
    reveal_strlit("head");
    reveal_strlit("noscript");
    reveal_strlit("template");
    reveal_strlit("br");
    reveal_strlit("hr");
    reveal_strlit("h1");
    reveal_strlit("h2");
    reveal_strlit("h3");
    reveal_strlit("h4");
    reveal_strlit("h5");
    reveal_strlit("h6");
    let n = seq!['h', c];
    assert(n != "script"@ && n != "style"@ && n != "head"@ && n != "noscript"@ && n != "template"@);
    assert(n != "br"@ && n != "hr"@);
    if level == 1 { assert(n == "h1"@); }
    else if level == 2 { assert(n != "h1"@); assert(n == "h2"@); }
    else if level == 3 { assert(n != "h1"@ && n != "h2"@); assert(n == "h3"@); }
    else if level == 4 { assert(n != "h1"@ && n != "h2"@ && n != "h3"@); assert(n == "h4"@); }
    else if level == 5 { assert(n != "h1"@ && n != "h2"@ && n != "h3"@ && n != "h4"@); assert(n == "h5"@); }
    else { assert(n != "h1"@ && n != "h2"@ && n != "h3"@ && n != "h4"@ && n != "h5"@); assert(n == "h6"@); }
}

/// Headings: an `<hN>` element (N from 1 to 6) is written as a new line
/// that starts with exactly N `#` characters and a space, after which comes
/// everything else written for it.
pub proof fn lemma_heading_line(t: TreeView, k: int, d: int, st: MdView, c: char, level: nat)
    requires
        1 <= level <= 6,
        c as int == '0' as int + level,
        name_of(t, k) == seq!['h', c],
    ensures
        ({
            let before = md_flush(md_ensure(st, 2)).buf;
            let out = md_dispatch(t, k, d, st).buf;
            &&& before.len() > 0 && before.last() == '\n'
            &&& out.len() > before.len() + level
            &&& out.take(before.len() as int) == before
            &&& forall|i: int| before.len() <= i < before.len() + level ==> #[trigger] out[i] == '#'
            &&& out[(before.len() + level) as int] == ' '
        }),
{
    lemma_heading_class(c, level);
    lemma_repeat_hash(level);
    lemma_dispatch_grows(t, k, d, st);
    let e2 = md_ensure(st, 2);
    let f = md_flush(e2);
    let before = f.buf;
    let h = repeat(seq!['#'], level);
    let a = md_push(e2, h);
    let s1 = md_push(a, seq![' ']);
    assert(a.buf == before + h);
    assert(s1.buf == before + h + seq![' ']);
    let kids = kids_of(t, k);
    let cc = md_children(t, kids, d, s1);
    lemma_children_grows(t, kids, d, s1);
    lemma_basic_grows(cc, Seq::empty(), 2);
    lemma_extends_trans(s1, cc, md_dispatch(t, k, d, st));
    let out = md_dispatch(t, k, d, st).buf;
    assert(out.take(s1.buf.len() as int) == s1.buf);
    assert(before.len() > 0 && before.last() == '\n');
    assert forall|i: int| before.len() <= i < before.len() + level implies #[trigger] out[i] == '#' by {
        assert(out[i] == out.take(s1.buf.len() as int)[i]);
        assert(s1.buf[i] == h[i - before.len()]);
    }
    assert(out[(before.len() + level) as int] == out.take(s1.buf.len() as int)[(before.len() + level) as int]);
    assert(out.take(before.len() as int) == s1.buf.take(before.len() as int));
}

/// The Markdown of the children of `root`.
pub open spec fn spec_element_to_markdown(t: TreeView, root: int) -> Seq<char> {
    finalize_spec(md_children(t, kids_of(t, root), 0, fresh_state(false)).buf)
}

// ---------------------------------------------------------------------------
// The tree walk

fn emit_children(m: &DocModel, k: usize, d: usize, st: &mut State)
    requires
        m.wf(),
        k < m.kinds@.len(),
        d <= 200,
    ensures
        final(st)@ == md_children(tree_of(m), kids_of(tree_of(m), k as int), d as int, old(st)@),
    decreases 200 - d, 2int, 0int,
{
    let ghost t = tree_of(m);
    let kids = &m.children[k];
    assert(kids_of(t, k as int) == kids@);
    let mut j: usize = 0;
    while j < kids.len()
        invariant
            m.wf(),
            t == tree_of(m),
            k < m.kinds@.len(),
            d <= 200,
            kids == &m.children@[k as int],
            j <= kids@.len(),
            st@ == md_children(t, kids@.take(j as int), d as int, old(st)@),
        decreases kids@.len() - j,
    {
        assert(kids@.take(j + 1).drop_last() == kids@.take(j as int));
        assert(kids@.take(j + 1).last() == kids@[j as int]);
        assert(t.ch[k as int][j as int] < t.ch.len());
        emit_node(m, kids[j], d, st);
        j = j + 1;
    }
    assert(kids@.take(j as int) == kids@);
}

fn emit_node(m: &DocModel, k: usize, d: usize, st: &mut State)
    requires
        m.wf(),
        k < m.kinds@.len(),
        d <= 200,
    ensures
        final(st)@ == md_node(tree_of(m), k as int, d as int, old(st)@),
    decreases 200 - d, 1int, 0int,
{
    assert(tree_of(m).kinds[k as int] == m.kinds@[k as int]@);
    match &m.kinds[k] {
        NodeKind::Text { text } => {
            let chars = str_chars(text.as_str());
            if st.in_pre {
                push_chars(&mut st.buf, &chars);
                return;
            }
            let normalized = normalize_inline_text(&chars);
            if trim_chars(&normalized).len() == 0 && st.pending_nl > 0 {
                return;
            }
            st.push_inline(&normalized);
        },
        NodeKind::Element { .. } => {
            emit_element(m, k, d, st);
        },
        NodeKind::Other => {},
    }
}

fn emit_element(m: &DocModel, k: usize, d: usize, st: &mut State)
    requires
        m.wf(),
        k < m.kinds@.len(),
        d <= 200,
    ensures
        final(st)@ == md_element(tree_of(m), k as int, d as int, old(st)@),
    decreases 200 - d, 0int, 0int,
{
    if d >= MAX_DEPTH {
        return;
    }
    emit_dispatch(m, k, d + 1, st);
}

fn emit_li_children(m: &DocModel, k: usize, d: usize, st: &mut State)
    requires
        m.wf(),
        k < m.kinds@.len(),
        d <= 200,
    ensures
        final(st)@ == md_li_children(tree_of(m), kids_of(tree_of(m), k as int), d as int, old(st)@),
    decreases 200 - d, 2int, 0int,
{
    let ghost t = tree_of(m);
    let kids = &m.children[k];
    assert(kids_of(t, k as int) == kids@);
    let mut j: usize = 0;
    while j < kids.len()
        invariant
            m.wf(),
            t == tree_of(m),
            k < m.kinds@.len(),
            d <= 200,
            kids == &m.children@[k as int],
            j <= kids@.len(),
            st@ == md_li_children(t, kids@.take(j as int), d as int, old(st)@),
        decreases kids@.len() - j,
    {
        assert(kids@.take(j + 1).drop_last() == kids@.take(j as int));
        assert(kids@.take(j + 1).last() == kids@[j as int]);
        assert(t.ch[k as int][j as int] < t.ch.len());
        let c = kids[j];
        assert(t.kinds[c as int] == m.kinds@[c as int]@);
        let is_list: Option<bool> = match &m.kinds[c] {
            NodeKind::Element { .. } => Some(match tag_of(m, c) { Tag::Ul => true, Tag::Ol => true, _ => false }),
            _ => None,
        };
        match is_list {
            Some(l) => {
                if l {
                    st.ensure_newlines(1);
                }
                emit_element(m, c, d, st);
            },
            None => {
                emit_node(m, c, d, st);
            },
        }
        j = j + 1;
    }
    assert(kids@.take(j as int) == kids@);
}

fn quote_lines(st: &mut State, lines: &Vec<Vec<char>>)
    ensures
        final(st)@ == md_quote_lines(old(st)@, lines_view(lines@)),
{
    let ghost lv = lines_view(lines@);
    let gt = vec!['>', ' '];
    assert(gt@ == seq!['>', ' ']);
    let mut i: usize = 0;
    while i < lines.len()
        invariant
            i <= lines@.len(),
            lv == lines_view(lines@),
            gt@ == seq!['>', ' '],
            st@ == md_quote_lines(old(st)@, lv.take(i as int)),
        decreases lines@.len() - i,
    {
        assert(lv.take(i + 1).drop_last() == lv.take(i as int));
        assert(lv.take(i + 1).last() == lines@[i as int]@);
        st.push_str(&gt);
        st.push_str(&lines[i]);
        st.buf.push('\n');
        st.pending_nl = 0;
        i = i + 1;
    }
    assert(lv.take(i as int) == lv);
}

fn first_code_child_exec(m: &DocModel, k: usize) -> (r: Option<usize>)
    requires
        m.wf(),
        k < m.kinds@.len(),
    ensures
        match r {
            Some(c) => {
                let j = first_code_child(tree_of(m), kids_of(tree_of(m), k as int), 0);
                j >= 0 && c == kids_of(tree_of(m), k as int)[j] && c < m.kinds@.len()
            },
            None => first_code_child(tree_of(m), kids_of(tree_of(m), k as int), 0) < 0,
        },
{
    let ghost t = tree_of(m);
    let kids = &m.children[k];
    assert(kids_of(t, k as int) == kids@);
    let mut j: usize = 0;
    while j < kids.len()
        invariant
            m.wf(),
            t == tree_of(m),
            k < m.kinds@.len(),
            kids == &m.children@[k as int],
            j <= kids@.len(),
            first_code_child(t, kids@, 0) == first_code_child(t, kids@, j as int),
        decreases kids@.len() - j,
    {
        assert(t.ch[k as int][j as int] < t.ch.len());
        let c = kids[j];
        assert(t.kinds[c as int] == m.kinds@[c as int]@);
        let hit = match &m.kinds[c] {
            NodeKind::Element { name, .. } => str_eq(name.as_str(), "code"),
            _ => false,
        };
        if hit {
            return Some(c);
        }
        j = j + 1;
    }
    None
}

fn strip_prefix_all_exec(t: &Vec<char>, p: &Vec<char>) -> (r: Vec<char>)
    ensures
        r@ == strip_prefix_all(t@, p@),
{
    let mut start: usize = 0;
    assert(t@.skip(0) == t@);
    while p.len() > 0 && p.len() <= t.len() - start
        && crate::text::chars_start_with(&slice_from(t, start), p)
        invariant
            start <= t@.len(),
            strip_prefix_all(t@, p@) == strip_prefix_all(t@.skip(start as int), p@),
        decreases t@.len() - start,
    {
        proof {
            let rest = t@.skip(start as int);
            assert(rest.skip(p@.len() as int) == t@.skip(start + p@.len()));
        }
        start = start + p.len();
    }
    slice_from(t, start)
}

fn slice_from(t: &Vec<char>, start: usize) -> (r: Vec<char>)
    requires
        start <= t@.len(),
    ensures
        r@ == t@.skip(start as int),
{
    let mut out: Vec<char> = Vec::new();
    let mut i: usize = start;
    while i < t.len()
        invariant
            start <= i <= t@.len(),
            out@ == t@.subrange(start as int, i as int),
        decreases t@.len() - i,
    {
        out.push(t[i]);
        assert(t@.subrange(start as int, i + 1) == t@.subrange(start as int, i as int).push(t@[i as int]));
        i = i + 1;
    }
    assert(t@.subrange(start as int, t@.len() as int) == t@.skip(start as int));
    out
}

fn extract_language(m: &DocModel, k: usize) -> (r: Option<Vec<char>>)
    requires
        m.wf(),
        k < m.kinds@.len(),
    ensures
        match r {
            Some(l) => md_language(tree_of(m), k as int) == Some(l@),
            None => md_language(tree_of(m), k as int) is None,
        },
{
    let ghost t = tree_of(m);
    let c = match first_code_child_exec(m, k) {
        None => return None,
        Some(c) => c,
    };
    assert(t.kinds[c as int] == m.kinds@[c as int]@);
    let cls = match &m.kinds[c] {
        NodeKind::Element { attrs, .. } => match plain_attr_value(attrs, "class") {
            None => return None,
            Some(v) => v,
        },
        _ => return None,
    };
    let toks = crate::text::unicode_words_exec(&str_chars(cls.as_str()));
    let ghost tv = toks@.map_values(|w: Vec<char>| w@);
    let prefix = str_chars("language-");
    let mut i: usize = 0;
    assert(tv.skip(0) == tv);
    assert(md_language(t, k as int) == language_token(tv));
    while i < toks.len()
        invariant
            i <= toks@.len(),
            tv == toks@.map_values(|w: Vec<char>| w@),
            prefix@ == "language-"@,
            md_language(tree_of(m), k as int) == language_token(tv),
            language_token(tv) == language_token(tv.skip(i as int)),
        decreases toks@.len() - i,
    {
        assert(tv.skip(i as int)[0] == toks@[i as int]@);
        assert(tv.skip(i as int).drop_first() == tv.skip(i + 1));
        if crate::text::chars_start_with(&toks[i], &prefix) {
            return Some(strip_prefix_all_exec(&toks[i], &prefix));
        }
        i = i + 1;
    }
    None
}

fn parse_usize_exec(s: &Vec<char>) -> (r: Option<usize>)
    ensures
        r == parse_usize(s@),
{
    let start: usize = if s.len() > 0 && s[0] == '+' { 1 } else { 0 };
    let ghost body = usize_body(s@);
    assert(body == s@.skip(start as int));
    if start >= s.len() {
        return None;
    }
    let mut v: usize = 0;
    let mut i: usize = start;
    while i < s.len()
        invariant
            start < s@.len(),
            start <= i <= s@.len(),
            body == s@.skip(start as int),
            body == usize_body(s@),
            v == digits_value(s@.subrange(start as int, i as int)),
            forall|q: int| start <= q < i ==> '0' <= #[trigger] s@[q] <= '9',
        decreases s@.len() - i,
    {
        let c = s[i];
        assert(s@.subrange(start as int, i + 1).drop_last() == s@.subrange(start as int, i as int));
        if !('0' <= c && c <= '9') {
            assert(body[i - start] == c);
            assert(!all_digits(body));
            return None;
        }
        let dv: usize = (c as u32 - '0' as u32) as usize;
        if v > (usize::MAX - dv) / 10 {
            proof {
                let b = s@.skip(start as int);
                assert(digits_value(s@.subrange(start as int, i + 1)) == v * 10 + dv);
                assert(v * 10 + dv > usize::MAX) by (nonlinear_arith)
                    requires v > (usize::MAX - dv) / 10, dv <= 9;
                if all_digits(b) {
                    lemma_digits_value_prefix(b, (i + 1 - start) as int);
                    assert(b.take((i + 1 - start) as int) == s@.subrange(start as int, i + 1));
                }
            }
            return None;
        }
        assert(v * 10 + dv <= usize::MAX) by (nonlinear_arith)
            requires v <= (usize::MAX - dv) / 10, dv <= 9;
        v = v * 10 + dv;
        i = i + 1;
    }
    assert(s@.subrange(start as int, i as int) == body);
    assert(all_digits(body)) by {
        assert forall|q: int| 0 <= q < body.len() implies '0' <= #[trigger] body[q] <= '9' by {
            assert(body[q] == s@[q + start]);
        }
    }
    Some(v)
}

/// A longer digit sequence has a value no smaller than its prefix.
proof fn lemma_digits_value_prefix(s: Seq<char>, n: int)
    requires
        0 <= n <= s.len(),
        forall|q: int| 0 <= q < s.len() ==> '0' <= #[trigger] s[q] <= '9',
    ensures
        digits_value(s.take(n)) <= digits_value(s),
    decreases s.len(),
{
    if n < s.len() {
        assert(s.drop_last().take(n) == s.take(n));
        assert forall|q: int| 0 <= q < s.drop_last().len() implies '0' <= #[trigger] s.drop_last()[q] <= '9' by {
            assert(s.drop_last()[q] == s[q]);
        }
        lemma_digits_value_prefix(s.drop_last(), n);
    } else {
        assert(s.take(n) == s);
    }
}

/// The tag of element `k`.
fn tag_of(m: &DocModel, k: usize) -> (r: Tag)
    requires
        m.wf(),
        k < m.kinds@.len(),
    ensures
        r == tag_class(name_of(tree_of(m), k as int)),
{
    proof { crate::text::lemma_empty_str(); }
    assert(tree_of(m).kinds[k as int] == m.kinds@[k as int]@);
    match &m.kinds[k] {
        NodeKind::Element { name, .. } => classify(name.as_str()),
        _ => classify(""),
    }
}

fn emit_pre(m: &DocModel, k: usize, d: usize, st: &mut State)
    requires
        m.wf(),
        k < m.kinds@.len(),
        1 <= d <= 200,
        tag_class(name_of(tree_of(m), k as int)) is Pre,
    ensures
        final(st)@ == md_dispatch(tree_of(m), k as int, d as int, old(st)@),
    decreases 200 - d, 3int, 0int,
{
    st.ensure_newlines(2);
    let lang: Vec<char> = match extract_language(m, k) {
        Some(l) => l,
        None => Vec::new(),
    };
    let mut scratch = State::new(true);
    emit_children(m, k, d, &mut scratch);
    let content = scratch.buf;
    let max_run = count_max_consecutive_backticks(&content);
    let f: usize = if max_run < usize::MAX { max_run + 1 } else { max_run };
    let fence_n: usize = if f < 3 { 3 } else { f };
    let mut fence: Vec<char> = Vec::new();
    let mut i: usize = 0;
    while i < fence_n
        invariant
            i <= fence_n,
            fence@ == repeat(seq!['`'], i as nat),
        decreases fence_n - i,
    {
        fence.push('`');
        assert(fence@ =~= repeat(seq!['`'], (i + 1) as nat));
        i = i + 1;
    }
    st.push_str(&fence);
    st.push_str(&lang);
    st.buf.push('\n');
    st.pending_nl = 0;
    push_chars(&mut st.buf, &content);
    let n = st.buf.len();
    if !(n > 0 && st.buf[n - 1] == '\n') {
        st.buf.push('\n');
    }
    push_chars(&mut st.buf, &fence);
    st.ensure_newlines(2);
}

fn emit_blockquote(m: &DocModel, k: usize, d: usize, st: &mut State)
    requires
        m.wf(),
        k < m.kinds@.len(),
        1 <= d <= 200,
        tag_class(name_of(tree_of(m), k as int)) is Blockquote,
    ensures
        final(st)@ == md_dispatch(tree_of(m), k as int, d as int, old(st)@),
    decreases 200 - d, 3int, 0int,
{
    st.ensure_newlines(2);
    let mut inner = State::new(false);
    emit_children(m, k, d, &mut inner);
    let text = finalize(&inner.buf);
    let lines = lines_exec(&text);
    quote_lines(st, &lines);
    st.ensure_newlines(2);
}

fn collect_inline_text(m: &DocModel, k: usize) -> (r: Vec<char>)
    requires
        m.wf(),
        k < m.kinds@.len(),
    ensures
        r@ == inline_text(tree_of(m), k as int),
{
    normalize_inline_text(&crate::dom::element_text_exec(m, k))
}

fn chars_contain(v: &Vec<char>, c: char) -> (r: bool)
    ensures
        r == v@.contains(c),
{
    let mut i: usize = 0;
    while i < v.len()
        invariant
            i <= v@.len(),
            forall|t: int| 0 <= t < i ==> v@[t] != c,
        decreases v@.len() - i,
    {
        if v[i] == c {
            return true;
        }
        i = i + 1;
    }
    false
}

/// The attribute `name` of element `k`, as characters.
fn attr_chars(m: &DocModel, k: usize, name: &str) -> (r: Option<Vec<char>>)
    requires
        m.wf(),
        k < m.kinds@.len(),
    ensures
        match r {
            Some(v) => attr_plain(attrs_of(tree_of(m), k as int), name@) == Some(v@),
            None => attr_plain(attrs_of(tree_of(m), k as int), name@) is None,
        },
{
    assert(tree_of(m).kinds[k as int] == m.kinds@[k as int]@);
    match &m.kinds[k] {
        NodeKind::Element { attrs, .. } => match plain_attr_value(attrs, name) {
            Some(v) => Some(str_chars(v.as_str())),
            None => None,
        },
        _ => None,
    }
}

fn emit_img(m: &DocModel, k: usize, d: usize, st: &mut State)
    requires
        m.wf(),
        k < m.kinds@.len(),
        1 <= d <= 200,
        tag_class(name_of(tree_of(m), k as int)) is Img,
    ensures
        final(st)@ == md_dispatch(tree_of(m), k as int, d as int, old(st)@),
{
    let alt: Vec<char> = match attr_chars(m, k, "alt") { Some(a) => a, None => Vec::new() };
    let src: Vec<char> = match attr_chars(m, k, "src") { Some(a) => a, None => Vec::new() };
    if src.len() > 0 {
        let mut md: Vec<char> = Vec::new();
        md.push('!');
        md.push('[');
        push_chars(&mut md, &alt);
        md.push(']');
        md.push('(');
        push_chars(&mut md, &src);
        md.push(')');
        assert(md@ =~= seq!['!', '['] + alt@ + seq![']', '('] + src@ + seq![')']);
        st.push_inline(&md);
    }
}

fn emit_code(m: &DocModel, k: usize, d: usize, st: &mut State)
    requires
        m.wf(),
        k < m.kinds@.len(),
        1 <= d <= 200,
        tag_class(name_of(tree_of(m), k as int)) is Code,
    ensures
        final(st)@ == md_dispatch(tree_of(m), k as int, d as int, old(st)@),
    decreases 200 - d, 3int, 0int,
{
    if st.in_pre {
        emit_children(m, k, d, st);
    } else {
        let text = collect_inline_text(m, k);
        let two = chars_contain(&text, '`');
        let mut md: Vec<char> = Vec::new();
        md.push('`');
        if two { md.push('`'); }
        push_chars(&mut md, &text);
        md.push('`');
        if two { md.push('`'); }
        proof {
            let tick = if two { seq!['`', '`'] } else { seq!['`'] };
            assert(md@ =~= tick + text@ + tick);
        }
        st.push_inline(&md);
    }
}

fn emit_wrapped(m: &DocModel, k: usize, st: &mut State, mark: &Vec<char>)
    requires
        m.wf(),
        k < m.kinds@.len(),
    ensures
        final(st)@ == md_wrapped(old(st)@, inline_text(tree_of(m), k as int), mark@),
{
    let text = collect_inline_text(m, k);
    if trim_chars(&text).len() > 0 {
        let mut md: Vec<char> = Vec::new();
        push_chars(&mut md, mark);
        push_chars(&mut md, &text);
        push_chars(&mut md, mark);
        st.push_inline(&md);
    }
}

fn emit_a(m: &DocModel, k: usize, d: usize, st: &mut State)
    requires
        m.wf(),
        k < m.kinds@.len(),
        1 <= d <= 200,
        tag_class(name_of(tree_of(m), k as int)) is A,
    ensures
        final(st)@ == md_dispatch(tree_of(m), k as int, d as int, old(st)@),
    decreases 200 - d, 3int, 0int,
{
    let href = attr_chars(m, k, "href");
    let mut inner = State::new(false);
    emit_children(m, k, d, &mut inner);
    let text = finalize(&inner.buf);
    let trimmed = trim_chars(&text);
    if trimmed.len() > 0 {
        match href {
            Some(h) => {
                let mut md: Vec<char> = Vec::new();
                md.push('[');
                push_chars(&mut md, &trimmed);
                md.push(']');
                md.push('(');
                push_chars(&mut md, &h);
                md.push(')');
                assert(md@ =~= seq!['['] + trimmed@ + seq![']', '('] + h@ + seq![')']);
                st.push_inline(&md);
            },
            None => {
                st.push_inline(&trimmed);
            },
        }
    }
}

fn emit_list(m: &DocModel, k: usize, d: usize, st: &mut State, kind: ListKind)
    requires
        m.wf(),
        k < m.kinds@.len(),
        1 <= d <= 200,
    ensures
        final(st)@ == md_list(tree_of(m), kids_of(tree_of(m), k as int), d as int, old(st)@, kind),
    decreases 200 - d, 3int, 0int,
{
    if st.list_depth() == 0 {
        st.ensure_newlines(2);
    }
    st.list_stack.push(kind);
    emit_children(m, k, d, st);
    st.list_stack.pop();
    if st.list_depth() == 0 {
        st.ensure_newlines(2);
    }
}

fn ol_start(m: &DocModel, k: usize) -> (r: usize)
    requires
        m.wf(),
        k < m.kinds@.len(),
    ensures
        r == match attr_plain(attrs_of(tree_of(m), k as int), "start"@) {
            Some(v) => match parse_usize(v) { Some(x) => x, None => 1 },
            None => 1,
        },
{
    match attr_chars(m, k, "start") {
        Some(v) => match parse_usize_exec(&v) {
            Some(x) => x,
            None => 1,
        },
        None => 1,
    }
}

fn emit_li(m: &DocModel, k: usize, d: usize, st: &mut State)
    requires
        m.wf(),
        k < m.kinds@.len(),
        1 <= d <= 200,
        tag_class(name_of(tree_of(m), k as int)) is Li,
    ensures
        final(st)@ == md_dispatch(tree_of(m), k as int, d as int, old(st)@),
    decreases 200 - d, 3int, 0int,
{
    if st.in_pre {
        emit_children(m, k, d, st);
    } else {
        st.ensure_newlines(1);
        let prefix = st.list_prefix();
        st.push_str(&prefix);
        emit_li_children(m, k, d, st);
    }
}

fn set_head(st: &mut State, b: bool)
    ensures
        final(st)@ == set_in_head(old(st)@, b),
{
    match st.table_state.take() {
        Some(mut ts) => {
            ts.in_head = b;
            st.table_state = Some(ts);
        },
        None => {},
    }
}

fn new_table() -> (r: TableState)
    ensures
        r@ == empty_table(),
{
    let r = TableState {
        headers: Vec::new(),
        rows: Vec::new(),
        current_row: Vec::new(),
        current_cell: Vec::new(),
        in_head: false,
    };
    assert(cells_view(r.headers@) =~= Seq::empty());
    assert(rows_view(r.rows@) =~= Seq::empty());
    assert(cells_view(r.current_row@) =~= Seq::empty());
    r
}

fn emit_table(m: &DocModel, k: usize, d: usize, st: &mut State)
    requires
        m.wf(),
        k < m.kinds@.len(),
        1 <= d <= 200,
        tag_class(name_of(tree_of(m), k as int)) is Table,
    ensures
        final(st)@ == md_dispatch(tree_of(m), k as int, d as int, old(st)@),
    decreases 200 - d, 3int, 0int,
{
    st.ensure_newlines(2);
    let prev = st.table_state.take();
    st.table_state = Some(new_table());
    emit_children(m, k, d, st);
    let ts = match st.table_state.take() {
        Some(ts) => ts,
        None => new_table(),
    };
    st.flush_pending();
    emit_gfm_table(&ts, &mut st.buf);
    st.pending_nl = 0;
    st.table_state = prev;
    st.ensure_newlines(2);
}

fn emit_tr(m: &DocModel, k: usize, d: usize, st: &mut State)
    requires
        m.wf(),
        k < m.kinds@.len(),
        1 <= d <= 200,
        tag_class(name_of(tree_of(m), k as int)) is Tr,
    ensures
        final(st)@ == md_dispatch(tree_of(m), k as int, d as int, old(st)@),
    decreases 200 - d, 3int, 0int,
{
    match st.table_state.take() {
        Some(mut ts) => {
            ts.current_row.clear();
            st.table_state = Some(ts);
            assert(cells_view(Seq::<Vec<char>>::empty()) =~= Seq::empty());
        },
        None => {},
    }
    emit_children(m, k, d, st);
    match st.table_state.take() {
        Some(mut ts) => {
            let mut row: Vec<Vec<char>> = Vec::new();
            std::mem::swap(&mut row, &mut ts.current_row);
            if ts.in_head || ts.headers.len() == 0 {
                ts.headers = row;
            } else {
                let ghost rv = rows_view(ts.rows@);
                ts.rows.push(row);
                assert(rows_view(ts.rows@) =~= rv.push(cells_view(row@)));
            }
            assert(cells_view(Seq::<Vec<char>>::empty()) =~= Seq::empty());
            st.table_state = Some(ts);
        },
        None => {},
    }
}

fn emit_cell(m: &DocModel, k: usize, d: usize, st: &mut State)
    requires
        m.wf(),
        k < m.kinds@.len(),
        1 <= d <= 200,
        tag_class(name_of(tree_of(m), k as int)) is Cell,
    ensures
        final(st)@ == md_dispatch(tree_of(m), k as int, d as int, old(st)@),
    decreases 200 - d, 3int, 0int,
{
    match st.table_state.take() {
        Some(mut ts) => {
            ts.current_cell.clear();
            st.table_state = Some(ts);
        },
        None => {},
    }
    emit_children(m, k, d, st);
    match st.table_state.take() {
        Some(mut ts) => {
            let mut cell: Vec<char> = Vec::new();
            std::mem::swap(&mut cell, &mut ts.current_cell);
            let ghost cv = cells_view(ts.current_row@);
            ts.current_row.push(trim_chars(&cell));
            assert(cells_view(ts.current_row@) =~= cv.push(trim(cell@)));
            st.table_state = Some(ts);
        },
        None => {},
    }
}

fn emit_dispatch(m: &DocModel, k: usize, d: usize, st: &mut State)
    requires
        m.wf(),
        k < m.kinds@.len(),
        1 <= d <= 200,
    ensures
        final(st)@ == md_dispatch(tree_of(m), k as int, d as int, old(st)@),
    decreases 200 - d, 4int, 0int,
{
    let tag = tag_of(m, k);
    match tag {
        Tag::Meta => {},
        Tag::Br => {
            match st.table_state.take() {
                Some(mut ts) => {
                    ts.current_cell.push(' ');
                    st.table_state = Some(ts);
                },
                None => {
                    let v = vec![' ', ' ', '\n'];
                    assert(v@ == seq![' ', ' ', '\n']);
                    st.push_str(&v);
                },
            }
        },
        Tag::Hr => {
            st.ensure_newlines(2);
            let v = vec!['-', '-', '-'];
            assert(v@ == seq!['-', '-', '-']);
            st.push_str(&v);
            st.ensure_newlines(2);
        },
        Tag::Heading(level) => {
            let mut prefix: Vec<char> = Vec::new();
            let mut i: usize = 0;
            while i < level
                invariant
                    i <= level,
                    prefix@ == repeat(seq!['#'], i as nat),
                decreases level - i,
            {
                prefix.push('#');
                assert(prefix@ =~= repeat(seq!['#'], (i + 1) as nat));
                i = i + 1;
            }
            st.ensure_newlines(2);
            st.push_str(&prefix);
            let sp = vec![' '];
            assert(sp@ == seq![' ']);
            st.push_str(&sp);
            emit_children(m, k, d, st);
            st.ensure_newlines(2);
        },
        Tag::Block => {
            st.ensure_newlines(2);
            emit_children(m, k, d, st);
            st.ensure_newlines(2);
        },
        Tag::Pre => emit_pre(m, k, d, st),
        Tag::Blockquote => emit_blockquote(m, k, d, st),
        Tag::Img => emit_img(m, k, d, st),
        Tag::Code => emit_code(m, k, d, st),
        Tag::Strong => {
            let mark = vec!['*', '*'];
            assert(mark@ == seq!['*', '*']);
            emit_wrapped(m, k, st, &mark);
        },
        Tag::Em => {
            let mark = vec!['*'];
            assert(mark@ == seq!['*']);
            emit_wrapped(m, k, st, &mark);
        },
        Tag::Del => {
            let mark = vec!['~', '~'];
            assert(mark@ == seq!['~', '~']);
            emit_wrapped(m, k, st, &mark);
        },
        Tag::A => emit_a(m, k, d, st),
        Tag::Inline => emit_children(m, k, d, st),
        Tag::Ul => emit_list(m, k, d, st, ListKind::Unordered),
        Tag::Ol => {
            let start = ol_start(m, k);
            emit_list(m, k, d, st, ListKind::Ordered(start));
        },
        Tag::Li => emit_li(m, k, d, st),
        Tag::Table => emit_table(m, k, d, st),
        Tag::Thead => {
            set_head(st, true);
            emit_children(m, k, d, st);
            set_head(st, false);
        },
        Tag::Tbody => {
            set_head(st, false);
            emit_children(m, k, d, st);
        },
        Tag::Tr => emit_tr(m, k, d, st),
        Tag::Cell => emit_cell(m, k, d, st),
        Tag::Other => emit_children(m, k, d, st),
    }
}

/// The Markdown of the children of element `root` (see
/// `spec_element_to_markdown`).
pub fn element_to_markdown(m: &DocModel, root: usize) -> (r: String)
    requires
        m.wf(),
        root < m.kinds@.len(),
    ensures
        r@ == spec_element_to_markdown(tree_of(m), root as int),
{
    let mut st = State::new(false);
    emit_children(m, root, 0, &mut st);
    let out = finalize(&st.buf);
    crate::text::string_from_chars(out.as_slice())
}

} // verus!
