//! Applying learned removals to a page: elements matching the selectors are
//! removed from the parsed tree, then the snippets are removed from the text
//! with whitespace-tolerant, case-insensitive regular expressions.

use vstd::prelude::*;
use crate::convert::selector::{css_removed_nodes, css_union_flags};
use crate::dom::{collect_flagged, detach_all, flagged_ids, root_element_kept};
use crate::html::{
    compile_selector, css_selector_parses, html_node_kinds, html_root_inner_html, html_select_flags,
    parse_fragment, root_element_present, root_inner_html, select_flags_compiled, CompiledSelector, ParsedHtml,
};
use crate::learn::finish::snippet_key;
use crate::learn::ranking::ranks_before;
use crate::learn::snippets::{contains_sub, seq_contains_sub};
use crate::learn::types::{strings_view, Removals};
use crate::patterns::{
    compile_regex, regex_compiles, regex_escape, regex_escaped, regex_replace_all, regex_replaced,
    CompiledRegex,
};
use crate::text::{
    byte_len, str_chars, str_eq, str_lt, string_from_chars, to_lowercase, trim, trim_chars,
    unicode_lowercase, utf8_len,
};

verus! {

/// Runs of whitespace.
pub open spec fn ws_pattern() -> Seq<char> {
    "\\s+"@
}

/// A `>` followed by content.
pub open spec fn tag_open_pattern() -> Seq<char> {
    ">([^<])"@
}

/// Content followed by a `<`.
pub open spec fn tag_close_pattern() -> Seq<char> {
    "([^>])<"@
}

/// The three fixed regexes compile.
pub open spec fn fixed_regexes_compile() -> bool {
    regex_compiles(ws_pattern()) && regex_compiles(tag_open_pattern()) && regex_compiles(tag_close_pattern())
}

/// The fixed regexes that snippet removal uses.
pub struct SnippetRegexes {
    pub whitespace: CompiledRegex,
    pub tag_open: CompiledRegex,
    pub tag_close: CompiledRegex,
}

impl SnippetRegexes {
    pub open spec fn wf(&self) -> bool {
        &&& self.whitespace.pattern() == ws_pattern()
        &&& self.tag_open.pattern() == tag_open_pattern()
        &&& self.tag_close.pattern() == tag_close_pattern()
    }
}

pub fn snippet_regexes() -> (r: Option<SnippetRegexes>)
    ensures
        r is Some <==> fixed_regexes_compile(),
        r matches Some(x) ==> x.wf(),
{
    let whitespace = match compile_regex("\\s+") { Some(x) => x, None => return None };
    let tag_open = match compile_regex(">([^<])") { Some(x) => x, None => return None };
    let tag_close = match compile_regex("([^>])<") { Some(x) => x, None => return None };
    Some(SnippetRegexes { whitespace, tag_open, tag_close })
}

/// Whitespace runs replaced by one space, trimmed and lowercased.
pub open spec fn normalized_text(text: Seq<char>) -> Seq<char> {
    unicode_lowercase(trim(regex_replaced(ws_pattern(), text, " "@)))
}

pub fn normalize_whitespace(rx: &SnippetRegexes, text: &str) -> (r: String)
    requires
        rx.wf(),
    ensures
        r@ == normalized_text(text@),
{
    let spaced = regex_replace_all(&rx.whitespace, text, " ");
    let t = string_from_chars(trim_chars(&str_chars(spaced.as_str())).as_slice());
    to_lowercase(t.as_str())
}

/// The regex of a snippet: the trimmed snippet escaped, with whitespace
/// runs matching any whitespace run, optional whitespace allowed after a
/// `>` and before a `<` that touch content, matched ignoring case.
pub open spec fn snippet_pattern(snippet: Seq<char>) -> Seq<char> {
    let escaped = regex_escaped(trim(snippet));
    let flexible = regex_replaced(ws_pattern(), escaped, "\\s+"@);
    let with_open = regex_replaced(tag_open_pattern(), flexible, ">\\s*$1"@);
    "(?i)"@ + regex_replaced(tag_close_pattern(), with_open, "$1\\s*<"@)
}

pub fn build_snippet_regex(rx: &SnippetRegexes, snippet: &str) -> (r: Option<CompiledRegex>)
    requires
        rx.wf(),
    ensures
        r is Some <==> regex_compiles(snippet_pattern(snippet@)),
        r matches Some(c) ==> c.pattern() == snippet_pattern(snippet@),
{
    let t = string_from_chars(trim_chars(&str_chars(snippet)).as_slice());
    let escaped = regex_escape(t.as_str());
    let flexible = regex_replace_all(&rx.whitespace, escaped.as_str(), "\\s+");
    let with_open = regex_replace_all(&rx.tag_open, flexible.as_str(), ">\\s*$1");
    let pattern = regex_replace_all(&rx.tag_close, with_open.as_str(), "$1\\s*<");
    let full = crate::text::concat3("(?i)", pattern.as_str(), "");
    proof { crate::text::lemma_empty_str(); }
    compile_regex(full.as_str())
}

/// `a` comes before `b` in removal order: longer first, then
/// lexicographically.
pub open spec fn removal_before(a: Seq<char>, b: Seq<char>) -> bool {
    ranks_before(snippet_key(a), snippet_key(b))
}

/// Inserts `x` before the first element it comes before.
pub open spec fn insert_sorted(s: Seq<Seq<char>>, x: Seq<char>) -> Seq<Seq<char>>
    decreases s.len(),
{
    if s.len() == 0 {
        seq![x]
    } else if removal_before(x, s[0]) {
        seq![x] + s
    } else {
        seq![s[0]] + insert_sorted(s.drop_first(), x)
    }
}

/// The snippets in removal order (equal snippets kept).
pub open spec fn sorted_snippets(s: Seq<Seq<char>>) -> Seq<Seq<char>>
    decreases s.len(),
{
    if s.len() == 0 { Seq::empty() } else { insert_sorted(sorted_snippets(s.drop_last()), s.last()) }
}

proof fn lemma_insert_at(s: Seq<Seq<char>>, x: Seq<char>, p: int)
    requires
        0 <= p <= s.len(),
        forall|q: int| 0 <= q < p ==> !removal_before(x, #[trigger] s[q]),
        p < s.len() ==> removal_before(x, s[p]),
    ensures
        insert_sorted(s, x) == s.take(p) + seq![x] + s.skip(p),
    decreases s.len(),
{
    if s.len() == 0 {
        assert(s.take(p) + seq![x] + s.skip(p) =~= seq![x]);
    } else if p == 0 {
        assert(s.take(0) + seq![x] + s.skip(0) =~= seq![x] + s);
    } else {
        assert forall|q: int| 0 <= q < p - 1 implies !removal_before(x, #[trigger] s.drop_first()[q]) by {
            assert(s.drop_first()[q] == s[q + 1]);
        }
        if p < s.len() {
            assert(s.drop_first()[p - 1] == s[p]);
        }
        lemma_insert_at(s.drop_first(), x, p - 1);
        assert(seq![s[0]] + (s.drop_first().take(p - 1) + seq![x] + s.drop_first().skip(p - 1))
            =~= s.take(p) + seq![x] + s.skip(p));
    }
}

fn removal_before_exec(a: &String, b: &String) -> (r: bool)
    ensures
        r == removal_before(a@, b@),
{
    let la = byte_len(a.as_str());
    let lb = byte_len(b.as_str());
    if la != lb {
        la > lb
    } else {
        str_lt(a.as_str(), b.as_str())
    }
}

pub fn sort_snippets(snippets: &Vec<String>) -> (r: Vec<String>)
    ensures
        strings_view(r@) == sorted_snippets(strings_view(snippets@)),
{
    let ghost sv = strings_view(snippets@);
    let mut out: Vec<String> = Vec::new();
    let mut i: usize = 0;
    while i < snippets.len()
        invariant
            i <= snippets@.len(),
            sv == strings_view(snippets@),
            strings_view(out@) == sorted_snippets(sv.take(i as int)),
        decreases snippets@.len() - i,
    {
        assert(sv.take(i + 1).drop_last() == sv.take(i as int));
        assert(sv.take(i + 1).last() == snippets@[i as int]@);
        let x = &snippets[i];
        let ghost ov = strings_view(out@);
        let mut p: usize = 0;
        while p < out.len() && !removal_before_exec(x, &out[p])
            invariant
                p <= out@.len(),
                ov == strings_view(out@),
                forall|q: int| 0 <= q < p ==> !removal_before(x@, #[trigger] ov[q]),
            decreases out@.len() - p,
        {
            assert(ov[p as int] == out@[p as int]@);
            p = p + 1;
        }
        proof {
            if p < out@.len() {
                assert(ov[p as int] == out@[p as int]@);
            }
            lemma_insert_at(ov, x@, p as int);
        }
        out.insert(p, x.clone());
        assert(strings_view(out@) =~= ov.take(p as int) + seq![x@] + ov.skip(p as int));
        i = i + 1;
    }
    assert(sv.take(i as int) == sv);
    out
}

/// The regexes that snippet removal applies, in order: for each non-blank
/// snippet (in removal order) whose regex compiles, its normalized text and
/// its pattern.
pub open spec fn snippet_plan(sorted: Seq<Seq<char>>) -> Seq<(Seq<char>, Seq<char>)>
    decreases sorted.len(),
{
    if sorted.len() == 0 {
        Seq::empty()
    } else {
        let prev = snippet_plan(sorted.drop_last());
        let s = sorted.last();
        if trim(s).len() > 0 && regex_compiles(snippet_pattern(s)) {
            prev.push((normalized_text(s), snippet_pattern(s)))
        } else {
            prev
        }
    }
}

/// Applying the plan: each regex is applied, to the page as it stands, when
/// the page's normalized text contains the snippet's normalized text.
pub open spec fn apply_plan(cleaned: Seq<char>, plan: Seq<(Seq<char>, Seq<char>)>) -> Seq<char>
    decreases plan.len(),
{
    if plan.len() == 0 {
        cleaned
    } else {
        let prev = apply_plan(cleaned, plan.drop_last());
        if seq_contains_sub(normalized_text(prev), plan.last().0) {
            regex_replaced(plan.last().1, prev, ""@)
        } else {
            prev
        }
    }
}

/// The page with the snippets removed (unchanged should the fixed regexes
/// not compile).
pub open spec fn spec_snippet_removal(html: Seq<char>, snippets: Seq<Seq<char>>) -> Seq<char> {
    if !fixed_regexes_compile() {
        html
    } else {
        apply_plan(html, snippet_plan(sorted_snippets(snippets)))
    }
}

/// The compiled regexes of a list of snippets.
pub open spec fn plan_view(v: Seq<(String, CompiledRegex)>) -> Seq<(Seq<char>, Seq<char>)> {
    v.map_values(|e: (String, CompiledRegex)| (e.0@, e.1.pattern()))
}

fn compile_snippets(rx: &SnippetRegexes, snippets: &Vec<String>) -> (r: Vec<(String, CompiledRegex)>)
    requires
        rx.wf(),
    ensures
        plan_view(r@) == snippet_plan(sorted_snippets(strings_view(snippets@))),
{
    let sorted = sort_snippets(snippets);
    let ghost sv = strings_view(sorted@);
    let mut out: Vec<(String, CompiledRegex)> = Vec::new();
    let mut i: usize = 0;
    while i < sorted.len()
        invariant
            rx.wf(),
            i <= sorted@.len(),
            sv == strings_view(sorted@),
            plan_view(out@) == snippet_plan(sv.take(i as int)),
        decreases sorted@.len() - i,
    {
        assert(sv.take(i + 1).drop_last() == sv.take(i as int));
        assert(sv.take(i + 1).last() == sorted@[i as int]@);
        let s = &sorted[i];
        if trim_chars(&str_chars(s.as_str())).len() > 0 {
            match build_snippet_regex(rx, s.as_str()) {
                Some(re) => {
                    let norm = normalize_whitespace(rx, s.as_str());
                    let ghost before = plan_view(out@);
                    let ghost pat = re.pattern();
                    out.push((norm, re));
                    assert(plan_view(out@) =~= before.push((normalized_text(s@), pat)));
                },
                None => {},
            }
        }
        i = i + 1;
    }
    assert(sv.take(i as int) == sv);
    out
}

fn apply_compiled_snippets(rx: &SnippetRegexes, html: String, plan: &Vec<(String, CompiledRegex)>) -> (r: String)
    requires
        rx.wf(),
    ensures
        r@ == apply_plan(html@, plan_view(plan@)),
{
    let ghost pv = plan_view(plan@);
    let mut cleaned = html;
    let mut normalized = str_chars(normalize_whitespace(rx, cleaned.as_str()).as_str());
    let mut i: usize = 0;
    while i < plan.len()
        invariant
            rx.wf(),
            i <= plan@.len(),
            pv == plan_view(plan@),
            cleaned@ == apply_plan(html@, pv.take(i as int)),
            normalized@ == normalized_text(cleaned@),
        decreases plan@.len() - i,
    {
        assert(pv.take(i + 1).drop_last() == pv.take(i as int));
        assert(pv.take(i + 1).last() == (plan@[i as int].0@, plan@[i as int].1.pattern()));
        let needle = str_chars(plan[i].0.as_str());
        if contains_sub(&normalized, &needle) {
            let next = regex_replace_all(&plan[i].1, cleaned.as_str(), "");
            proof { crate::text::lemma_empty_str(); }
            normalized = str_chars(normalize_whitespace(rx, next.as_str()).as_str());
            cleaned = next;
        }
        i = i + 1;
    }
    assert(pv.take(i as int) == pv);
    cleaned
}

/// Removes the snippets from the page's text (see `spec_snippet_removal`).
pub fn apply_html_snippet_removals(html: &str, snippets: &Vec<String>) -> (r: String)
    ensures
        r@ == spec_snippet_removal(html@, strings_view(snippets@)),
{
    let rx = match snippet_regexes() {
        None => return html.to_owned(),
        Some(rx) => rx,
    };
    let plan = compile_snippets(&rx, snippets);
    apply_compiled_snippets(&rx, html.to_owned(), &plan)
}

/// The fragment `html` without the elements that one of the selectors
/// (those that parse) matches, serialized.
pub open spec fn spec_css_removal(html: Seq<char>, sels: Seq<Seq<char>>) -> Seq<char> {
    html_root_inner_html(html, true, css_removed_nodes(html, sels))
}

pub open spec fn selector_texts(v: Seq<CompiledSelector>) -> Seq<Seq<char>> {
    v.map_values(|c: CompiledSelector| c.text())
}

/// The selectors of `sels` that parse, in order.
pub open spec fn parsing_selectors(sels: Seq<Seq<char>>) -> Seq<Seq<char>>
    decreases sels.len(),
{
    if sels.len() == 0 {
        Seq::empty()
    } else if css_selector_parses(sels.last()) {
        parsing_selectors(sels.drop_last()).push(sels.last())
    } else {
        parsing_selectors(sels.drop_last())
    }
}

proof fn lemma_parsing_selectors(sels: Seq<Seq<char>>, x: Seq<char>)
    ensures
        parsing_selectors(sels).contains(x) <==> (sels.contains(x) && css_selector_parses(x)),
    decreases sels.len(),
{
    if sels.len() > 0 {
        lemma_parsing_selectors(sels.drop_last(), x);
        let p = parsing_selectors(sels.drop_last());
        if sels.drop_last().contains(x) {
            let i = choose|i: int| 0 <= i < sels.drop_last().len() && sels.drop_last()[i] == x;
            assert(sels[i] == x);
        }
        if sels.contains(x) {
            let i = choose|i: int| 0 <= i < sels.len() && sels[i] == x;
            if i < sels.len() - 1 {
                assert(sels.drop_last()[i] == x);
            }
        }
        if css_selector_parses(sels.last()) {
            let q = p.push(sels.last());
            if q.contains(x) {
                let i = choose|i: int| 0 <= i < q.len() && q[i] == x;
                if i < p.len() {
                    assert(p[i] == x);
                }
            }
            if p.contains(x) {
                let i = choose|i: int| 0 <= i < p.len() && p[i] == x;
                assert(q[i] == x);
            }
            assert(q[p.len() as int] == sels.last());
        }
    }
}

/// The selectors that parse, compiled.
fn compile_selectors(sels: &Vec<String>) -> (r: Vec<CompiledSelector>)
    ensures
        selector_texts(r@) == parsing_selectors(strings_view(sels@)),
{
    let ghost sv = strings_view(sels@);
    let mut out: Vec<CompiledSelector> = Vec::new();
    let mut i: usize = 0;
    while i < sels.len()
        invariant
            i <= sels@.len(),
            sv == strings_view(sels@),
            selector_texts(out@) == parsing_selectors(sv.take(i as int)),
        decreases sels@.len() - i,
    {
        assert(sv.take(i + 1).drop_last() == sv.take(i as int));
        assert(sv.take(i + 1).last() == sels@[i as int]@);
        match compile_selector(sels[i].as_str()) {
            Some(c) => {
                let ghost before = selector_texts(out@);
                let ghost tx = c.text();
                out.push(c);
                assert(selector_texts(out@) =~= before.push(tx));
            },
            None => {},
        }
        i = i + 1;
    }
    assert(sv.take(i as int) == sv);
    out
}

/// For each node of the fragment `html`, whether one of the selectors (all
/// of which parse) selects it.
pub open spec fn compiled_union_flags(html: Seq<char>, tv: Seq<Seq<char>>) -> Seq<bool> {
    Seq::new(html_node_kinds(html, true).len(), |k: int|
        exists|i: int| 0 <= i < tv.len() && html_select_flags(html, true, Seq::empty(), #[trigger] tv[i])[k])
}

/// Parses the fragment `html` and detaches every element that one of the
/// compiled selectors matches.
fn detach_matching_compiled(html: &str, sels: &Vec<CompiledSelector>) -> (d: ParsedHtml)
    requires
        forall|i: int| 0 <= i < sels@.len() ==> css_selector_parses(#[trigger] selector_texts(sels@)[i]),
    ensures
        d.source_text() == html@,
        d.is_fragment(),
        d.removed_nodes() == flagged_ids(compiled_union_flags(html@, selector_texts(sels@)),
            html_node_kinds(html@, true).len() as int),
{
    let ghost tv = selector_texts(sels@);
    let mut d = parse_fragment(html);
    let m = crate::dom::load_model(&d);
    let n = m.kinds.len();
    let ghost want = Seq::new(html_node_kinds(html@, true).len(), |k: int|
        exists|i: int| 0 <= i < sels@.len() && html_select_flags(html@, true, Seq::empty(), #[trigger] tv[i])[k]);
    let mut flags: Vec<bool> = Vec::new();
    let mut k: usize = 0;
    while k < n
        invariant
            k <= n,
            flags@.len() == k,
            forall|t: int| 0 <= t < k ==> !flags@[t],
        decreases n - k,
    {
        flags.push(false);
        k = k + 1;
    }
    let mut i: usize = 0;
    while i < sels.len()
        invariant
            i <= sels@.len(),
            tv == selector_texts(sels@),
            d.source_text() == html@,
            d.is_fragment(),
            d.removed_nodes() == Seq::<usize>::empty(),
            n == html_node_kinds(html@, true).len(),
            n == d.node_count(),
            flags@.len() == n,
            forall|t: int| 0 <= t < n ==> flags@[t] == exists|j: int| 0 <= j < i
                && html_select_flags(html@, true, Seq::empty(), #[trigger] tv[j])[t],
        decreases sels@.len() - i,
    {
        let f = select_flags_compiled(&d, &sels[i]);
        assert(tv[i as int] == sels@[i as int].text());
        let mut t: usize = 0;
        while t < n
            invariant
                t <= n,
                f@.len() == n,
                flags@.len() == n,
                f@ == html_select_flags(html@, true, Seq::empty(), tv[i as int]),
                forall|q: int| 0 <= q < t ==> flags@[q] == exists|j: int| 0 <= j < i + 1
                    && html_select_flags(html@, true, Seq::empty(), #[trigger] tv[j])[q],
                forall|q: int| t <= q < n ==> flags@[q] == exists|j: int| 0 <= j < i
                    && html_select_flags(html@, true, Seq::empty(), #[trigger] tv[j])[q],
            decreases n - t,
        {
            proof {
                if exists|j: int| 0 <= j < i + 1 && html_select_flags(html@, true, Seq::empty(), #[trigger] tv[j])[t as int] {
                    let j = choose|j: int| 0 <= j < i + 1 && html_select_flags(html@, true, Seq::empty(), #[trigger] tv[j])[t as int];
                }
            }
            if f[t] {
                flags.set(t, true);
            }
            t = t + 1;
        }
        i = i + 1;
    }
    assert(flags@ =~= want);
    let ids = collect_flagged(&flags);
    detach_all(&mut d, &ids);
    assert(Seq::<usize>::empty() + ids@ =~= ids@);
    d
}

/// The compiled selectors select what the selectors that parse select.
proof fn lemma_compiled_union(html: Seq<char>, css: Seq<Seq<char>>, tv: Seq<Seq<char>>)
    requires
        tv == parsing_selectors(css),
    ensures
        forall|i: int| 0 <= i < tv.len() ==> css_selector_parses(#[trigger] tv[i]),
        compiled_union_flags(html, tv) == css_union_flags(html, css),
{
    assert forall|i: int| 0 <= i < tv.len() implies css_selector_parses(#[trigger] tv[i]) by {
        lemma_parsing_selectors(css, tv[i]);
        assert(tv.contains(tv[i]));
    }
    assert forall|k: int| 0 <= k < html_node_kinds(html, true).len() implies
        compiled_union_flags(html, tv)[k] == css_union_flags(html, css)[k] by {
        if exists|i: int| 0 <= i < tv.len() && html_select_flags(html, true, Seq::empty(), #[trigger] tv[i])[k] {
            let i = choose|i: int| 0 <= i < tv.len() && html_select_flags(html, true, Seq::empty(), #[trigger] tv[i])[k];
            lemma_parsing_selectors(css, tv[i]);
            assert(tv.contains(tv[i]));
            let j = choose|j: int| 0 <= j < css.len() && css[j] == tv[i];
            assert(css_selector_parses(css[j]) && html_select_flags(html, true, Seq::empty(), css[j])[k]);
        }
        if css_union_flags(html, css)[k] {
            let j = choose|j: int| 0 <= j < css.len() && css_selector_parses(#[trigger] css[j])
                && html_select_flags(html, true, Seq::empty(), css[j])[k];
            lemma_parsing_selectors(css, css[j]);
            assert(css.contains(css[j]));
            let i = choose|i: int| 0 <= i < tv.len() && tv[i] == css[j];
            assert(html_select_flags(html, true, Seq::empty(), tv[i])[k]);
        }
    }
    assert(compiled_union_flags(html, tv) =~= css_union_flags(html, css));
}

/// The fragment `html` parsed, with the elements that one of the selectors
/// (those that parse) selects detached.
fn css_removal_tree(html: &str, selectors: &Vec<String>) -> (d: ParsedHtml)
    ensures
        d.source_text() == html@,
        d.is_fragment(),
        d.removed_nodes() == css_removed_nodes(html@, strings_view(selectors@)),
{
    let compiled = compile_selectors(selectors);
    proof {
        lemma_compiled_union(html@, strings_view(selectors@), selector_texts(compiled@));
    }
    detach_matching_compiled(html, &compiled)
}

/// Removes the elements that the selectors (those that parse) select from
/// the fragment `html`, and serializes the rest.  The root `<html>` element
/// must survive (it is serialized).
pub fn apply_css_selector_removals(html: &str, selectors: &Vec<String>) -> (r: String)
    requires
        root_element_present(html@, true, css_removed_nodes(html@, strings_view(selectors@))),
    ensures
        r@ == spec_css_removal(html@, strings_view(selectors@)),
{
    let d = css_removal_tree(html, selectors);
    root_inner_html(&d)
}

/// `apply_css_selector_removals`, or `None` when the root `<html>` element
/// would not survive (as with the selector `html`).
pub fn try_apply_css_selector_removals(html: &str, selectors: &Vec<String>) -> (r: Option<String>)
    ensures
        r is Some <==> root_element_present(html@, true, css_removed_nodes(html@, strings_view(selectors@))),
        r matches Some(s) ==> s@ == spec_css_removal(html@, strings_view(selectors@)),
{
    let d = css_removal_tree(html, selectors);
    if root_element_kept(&d) {
        Some(apply_css_selector_removals(html, selectors))
    } else {
        None
    }
}

/// Applying learned removals: the selector removal when there are
/// selectors, then the snippet removal when there are snippets, trimmed.
pub open spec fn spec_apply_removals(html: Seq<char>, css: Seq<Seq<char>>, snippets: Seq<Seq<char>>) -> Seq<char> {
    let a = if css.len() > 0 { spec_css_removal(html, css) } else { html };
    let b = if snippets.len() > 0 { spec_snippet_removal(a, snippets) } else { a };
    trim(b)
}

/// The selector removal, when there is one, leaves the root `<html>`
/// element in place.
pub open spec fn removals_keep_root(html: Seq<char>, css: Seq<Seq<char>>) -> bool {
    css.len() > 0 ==> root_element_present(html, true, css_removed_nodes(html, css))
}

/// Apply previously learned boilerplate removals to an HTML string.  The
/// root `<html>` element must survive the selector removal.
pub fn apply_removals(html: &str, removals: &Removals) -> (r: String)
    requires
        removals_keep_root(html@, strings_view(removals.css_selectors_to_remove@)),
    ensures
        r@ == spec_apply_removals(html@, strings_view(removals.css_selectors_to_remove@),
            strings_view(removals.html_to_remove@)),
{
    let mut cleaned = html.to_owned();
    if removals.css_selectors_to_remove.len() > 0 {
        cleaned = apply_css_selector_removals(cleaned.as_str(), &removals.css_selectors_to_remove);
    }
    if removals.html_to_remove.len() > 0 {
        cleaned = apply_html_snippet_removals(cleaned.as_str(), &removals.html_to_remove);
    }
    string_from_chars(trim_chars(&str_chars(cleaned.as_str())).as_slice())
}

/// `apply_removals`, or `None` when the selector removal would take the
/// root `<html>` element itself.
pub fn try_apply_removals(html: &str, removals: &Removals) -> (r: Option<String>)
    ensures
        r is Some <==> removals_keep_root(html@, strings_view(removals.css_selectors_to_remove@)),
        r matches Some(s) ==> s@ == spec_apply_removals(html@, strings_view(removals.css_selectors_to_remove@),
            strings_view(removals.html_to_remove@)),
{
    if removals.css_selectors_to_remove.len() > 0 {
        let d = css_removal_tree(html, &removals.css_selectors_to_remove);
        if !root_element_kept(&d) {
            return None;
        }
    }
    Some(apply_removals(html, removals))
}

/// Pre-compiled form of `Removals` for applying to many pages.
pub struct CompiledRemovals {
    selectors: Vec<CompiledSelector>,
    regexes: Option<SnippetRegexes>,
    snippet_regexes: Vec<(String, CompiledRegex)>,
    css: Ghost<Seq<Seq<char>>>,
    snippets: Ghost<Seq<Seq<char>>>,
}

impl CompiledRemovals {
    /// The selectors and snippets compiled.
    pub closed spec fn css_source(&self) -> Seq<Seq<char>> {
        self.css@
    }

    pub closed spec fn snippet_source(&self) -> Seq<Seq<char>> {
        self.snippets@
    }

    /// The compiled parts agree with the selectors and snippets.
    pub closed spec fn wf(&self) -> bool {
        &&& selector_texts(self.selectors@) == parsing_selectors(self.css@)
        &&& (self.regexes is Some <==> fixed_regexes_compile())
        &&& (self.regexes matches Some(rx) ==> rx.wf())
        &&& (self.regexes is Some ==> plan_view(self.snippet_regexes@) == snippet_plan(sorted_snippets(self.snippets@)))
    }

    pub fn new(removals: &Removals) -> (r: Self)
        ensures
            r.wf(),
            r.css_source() == strings_view(removals.css_selectors_to_remove@),
            r.snippet_source() == strings_view(removals.html_to_remove@),
    {
        let selectors = compile_selectors(&removals.css_selectors_to_remove);
        let css = Ghost(strings_view(removals.css_selectors_to_remove@));
        let snippets = Ghost(strings_view(removals.html_to_remove@));
        match snippet_regexes() {
            None => CompiledRemovals { selectors, regexes: None, snippet_regexes: Vec::new(), css, snippets },
            Some(rx) => {
                let snippet_regexes = compile_snippets(&rx, &removals.html_to_remove);
                CompiledRemovals { selectors, regexes: Some(rx), snippet_regexes, css, snippets }
            },
        }
    }
}

/// Applying compiled removals: the selector removal when some selector
/// parses, then the snippet regexes when there are any, trimmed.
pub open spec fn spec_apply_compiled(html: Seq<char>, css: Seq<Seq<char>>, snippets: Seq<Seq<char>>) -> Seq<char> {
    let a = if parsing_selectors(css).len() > 0 { spec_css_removal(html, css) } else { html };
    let plan = snippet_plan(sorted_snippets(snippets));
    let b = if fixed_regexes_compile() && plan.len() > 0 { apply_plan(a, plan) } else { a };
    trim(b)
}

/// The selector removal of compiled removals, when some selector parses,
/// leaves the root `<html>` element in place.
pub open spec fn compiled_keeps_root(html: Seq<char>, css: Seq<Seq<char>>) -> bool {
    parsing_selectors(css).len() > 0 ==> root_element_present(html, true, css_removed_nodes(html, css))
}

/// Apply pre-compiled removals to an HTML string.  The root `<html>`
/// element must survive the selector removal.
pub fn apply_removals_compiled(html: &str, compiled: &CompiledRemovals) -> (r: String)
    requires
        compiled.wf(),
        compiled_keeps_root(html@, compiled.css_source()),
    ensures
        r@ == spec_apply_compiled(html@, compiled.css_source(), compiled.snippet_source()),
{
    let mut cleaned = html.to_owned();
    if compiled.selectors.len() > 0 {
        proof {
            lemma_compiled_union(html@, compiled.css@, selector_texts(compiled.selectors@));
        }
        let d = detach_matching_compiled(cleaned.as_str(), &compiled.selectors);
        cleaned = root_inner_html(&d);
    }
    match &compiled.regexes {
        Some(rx) => {
            if compiled.snippet_regexes.len() > 0 {
                cleaned = apply_compiled_snippets(rx, cleaned, &compiled.snippet_regexes);
            }
        },
        None => {},
    }
    string_from_chars(trim_chars(&str_chars(cleaned.as_str())).as_slice())
}

/// `apply_removals_compiled`, or `None` when the selector removal would
/// take the root `<html>` element itself.
pub fn try_apply_removals_compiled(html: &str, compiled: &CompiledRemovals) -> (r: Option<String>)
    requires
        compiled.wf(),
    ensures
        r is Some <==> compiled_keeps_root(html@, compiled.css_source()),
        r matches Some(s) ==> s@ == spec_apply_compiled(html@, compiled.css_source(), compiled.snippet_source()),
{
    if compiled.selectors.len() > 0 {
        proof {
            lemma_compiled_union(html@, compiled.css@, selector_texts(compiled.selectors@));
        }
        let d = detach_matching_compiled(html, &compiled.selectors);
        if !root_element_kept(&d) {
            return None;
        }
    }
    Some(apply_removals_compiled(html, compiled))
}

proof fn lemma_parsing_selectors_len(sels: Seq<Seq<char>>)
    ensures
        parsing_selectors(sels).len() <= sels.len(),
    decreases sels.len(),
{
    if sels.len() > 0 {
        lemma_parsing_selectors_len(sels.drop_last());
    }
}

/// Compiling removals once and applying them to a page gives what applying
/// them directly gives, whenever there are no selectors or one of them
/// parses.
pub proof fn lemma_compiled_matches_direct(html: Seq<char>, css: Seq<Seq<char>>, snippets: Seq<Seq<char>>)
    requires
        css.len() == 0 || parsing_selectors(css).len() > 0,
    ensures
        spec_apply_compiled(html, css, snippets) == spec_apply_removals(html, css, snippets),
{
    lemma_parsing_selectors_len(css);
    if snippets.len() == 0 {
        assert(sorted_snippets(snippets) == Seq::<Seq<char>>::empty());
        assert(snippet_plan(Seq::<Seq<char>>::empty()) == Seq::<(Seq<char>, Seq<char>)>::empty());
    }
}

} // verus!
