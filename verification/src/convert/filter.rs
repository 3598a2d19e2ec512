//! Link filtering and text-density scoring.

use vstd::prelude::*;
use crate::learn::snippets::{ascii_lower_seq, ascii_lowercase_chars, contains_sub, seq_contains_sub};
use crate::learn::types::strings_view;
use crate::dom::{
    all_named, all_named_exec, collect_flagged, collect_named, detach_all, element_text,
    element_text_exec, flagged_ids, has_parent, load_model, named_below, parent_flags, root_element_kept,
    selected_named, tree_children, tree_kinds, DocModel,
};
use crate::html::{html_root_inner_html, parse_fragment, root_element_present, root_inner_html, NodeKind, NodeKindView, ParsedHtml};
use crate::learn::selectors::{attr_plain, plain_attr_value};
use crate::convert::parser::elem_attrs;
use crate::text::{byte_len, str_eq, trim, trim_chars, utf8_len};
use crate::text::{
    all_ascii, ascii_lower, ascii_lower_char, is_ascii_alpha, is_ascii_chars, is_ascii_digit,
    is_control, is_whitespace, seq_starts_with, str_chars, to_lowercase, unicode_control,
    unicode_lowercase, unicode_white_space, chars_start_with, string_from_chars,
};

verus! {

/// Penalty per link in the text-density score.
pub const TEXT_DENSITY_LINK_PENALTY: i32 = 20;

/// `x` clamped to the range of `i32`.
pub open spec fn clamp_i32(x: int) -> int {
    if x < i32::MIN { i32::MIN as int } else if x > i32::MAX { i32::MAX as int } else { x }
}

/// Text length minus link text length minus 20 per link, clamped to `i32`.
pub fn compute_density_score(text_len: usize, link_text_len: usize, link_count: usize) -> (r: i32)
    ensures
        r == clamp_i32(text_len - link_text_len - link_count * 20),
{
    let raw: i128 = text_len as i128 - link_text_len as i128 - link_count as i128 * (TEXT_DENSITY_LINK_PENALTY as i128);
    if raw < i32::MIN as i128 {
        i32::MIN
    } else if raw > i32::MAX as i128 {
        i32::MAX
    } else {
        raw as i32
    }
}

/// Whether link text matches one of the patterns, ignoring case.  Text made
/// of ASCII is compared with the ASCII patterns, ignoring ASCII case (an
/// empty pattern matches); other text is lowercased and searched for the
/// lowercased patterns.
pub open spec fn spec_remove_by_text(text: Seq<char>, patterns: Seq<Seq<char>>, lowered: Seq<Seq<char>>) -> bool {
    if patterns.len() == 0 {
        false
    } else if all_ascii(text) {
        exists|i: int| 0 <= i < patterns.len() && all_ascii(#[trigger] patterns[i])
            && seq_contains_sub(ascii_lower_seq(text), ascii_lower_seq(patterns[i]))
    } else {
        exists|i: int| 0 <= i < lowered.len()
            && seq_contains_sub(unicode_lowercase(text), #[trigger] lowered[i])
    }
}

pub fn should_remove_by_text(text: &str, patterns: &Vec<String>, lowered_patterns: &Vec<String>) -> (r: bool)
    ensures
        r == spec_remove_by_text(text@, strings_view(patterns@), strings_view(lowered_patterns@)),
{
    if patterns.len() == 0 {
        return false;
    }
    let chars = str_chars(text);
    if is_ascii_chars(&chars) {
        let lower = ascii_lowercase_chars(&chars);
        let mut i: usize = 0;
        while i < patterns.len()
            invariant
                i <= patterns@.len(),
                patterns@.len() > 0,
                all_ascii(text@),
                lower@ == ascii_lower_seq(text@),
                forall|t: int| 0 <= t < i ==> !(all_ascii(#[trigger] strings_view(patterns@)[t])
                    && seq_contains_sub(ascii_lower_seq(text@), ascii_lower_seq(strings_view(patterns@)[t]))),
            decreases patterns@.len() - i,
        {
            let pc = str_chars(patterns[i].as_str());
            assert(strings_view(patterns@)[i as int] == patterns@[i as int]@);
            if is_ascii_chars(&pc) {
                let pl = ascii_lowercase_chars(&pc);
                if contains_sub(&lower, &pl) {
                    assert(all_ascii(strings_view(patterns@)[i as int])
                        && seq_contains_sub(ascii_lower_seq(text@), ascii_lower_seq(strings_view(patterns@)[i as int])));
                    return true;
                }
            }
            i = i + 1;
        }
        false
    } else {
        let tl = str_chars(to_lowercase(text).as_str());
        let mut i: usize = 0;
        while i < lowered_patterns.len()
            invariant
                i <= lowered_patterns@.len(),
                patterns@.len() > 0,
                !all_ascii(text@),
                tl@ == unicode_lowercase(text@),
                forall|t: int| 0 <= t < i ==> !seq_contains_sub(unicode_lowercase(text@), #[trigger] strings_view(lowered_patterns@)[t]),
            decreases lowered_patterns@.len() - i,
        {
            let pc = str_chars(lowered_patterns[i].as_str());
            assert(strings_view(lowered_patterns@)[i as int] == lowered_patterns@[i as int]@);
            if contains_sub(&tl, &pc) {
                assert(seq_contains_sub(unicode_lowercase(text@), strings_view(lowered_patterns@)[i as int]));
                return true;
            }
            i = i + 1;
        }
        false
    }
}

/// Characters that `normalize_href_scheme` drops: control characters and
/// whitespace.
pub open spec fn href_dropped(c: char) -> bool {
    unicode_control(c) || unicode_white_space(c)
}

/// `s` without dropped characters, ASCII-lowercased.
pub open spec fn href_clean(s: Seq<char>) -> Seq<char>
    decreases s.len(),
{
    if s.len() == 0 {
        Seq::empty()
    } else if href_dropped(s.last()) {
        href_clean(s.drop_last())
    } else {
        href_clean(s.drop_last()).push(ascii_lower(s.last()))
    }
}

/// The first 1024 characters of `value`, without control characters and
/// whitespace, ASCII-lowercased.
pub open spec fn spec_normalize_href_scheme(value: Seq<char>) -> Seq<char> {
    href_clean(if value.len() > 1024 { value.take(1024) } else { value })
}

fn normalize_href_chars(value: &Vec<char>) -> (r: Vec<char>)
    ensures
        r@ == spec_normalize_href_scheme(value@),
{
    let n: usize = if value.len() > 1024 { 1024 } else { value.len() };
    let ghost src = if value@.len() > 1024 { value@.take(1024) } else { value@ };
    assert(src.len() == n);
    let mut out: Vec<char> = Vec::new();
    let mut i: usize = 0;
    while i < n
        invariant
            n <= value@.len(),
            src.len() == n,
            forall|t: int| 0 <= t < n ==> src[t] == value@[t],
            i <= n,
            out@ == href_clean(src.take(i as int)),
        decreases n - i,
    {
        let c = value[i];
        assert(src.take(i + 1).drop_last() == src.take(i as int));
        assert(src.take(i + 1).last() == c);
        if !(is_control(c) || is_whitespace(c)) {
            out.push(ascii_lower_char(c));
        }
        i = i + 1;
    }
    assert(src.take(n as int) == src);
    out
}

pub fn normalize_href_scheme(value: &str) -> (r: String)
    ensures
        r@ == spec_normalize_href_scheme(value@),
{
    let v = normalize_href_chars(&str_chars(value));
    string_from_chars(v.as_slice())
}

/// `pattern` is a URL scheme followed by `:`: an ASCII letter, then ASCII
/// letters, digits, `+`, `-` or `.`.
pub open spec fn spec_is_scheme_prefix(pattern: Seq<char>) -> bool {
    &&& pattern.len() >= 2
    &&& pattern.last() == ':'
    &&& is_ascii_alpha(pattern[0])
    &&& forall|i: int| 1 <= i < pattern.len() - 1 ==>
        is_ascii_alpha(#[trigger] pattern[i]) || is_ascii_digit(pattern[i])
            || pattern[i] == '+' || pattern[i] == '-' || pattern[i] == '.'
}

fn scheme_prefix_chars(p: &Vec<char>) -> (r: bool)
    ensures
        r == spec_is_scheme_prefix(p@),
{
    let n = p.len();
    if n < 2 || p[n - 1] != ':' {
        return false;
    }
    let c0 = p[0];
    if !(('a' <= c0 && c0 <= 'z') || ('A' <= c0 && c0 <= 'Z')) {
        return false;
    }
    let mut i: usize = 1;
    while i < n - 1
        invariant
            n == p@.len(),
            n >= 2,
            1 <= i <= n - 1,
            forall|t: int| 1 <= t < i ==> is_ascii_alpha(#[trigger] p@[t]) || is_ascii_digit(p@[t])
                || p@[t] == '+' || p@[t] == '-' || p@[t] == '.',
        decreases n - 1 - i,
    {
        let c = p[i];
        if !(('a' <= c && c <= 'z') || ('A' <= c && c <= 'Z') || ('0' <= c && c <= '9')
            || c == '+' || c == '-' || c == '.') {
            return false;
        }
        i = i + 1;
    }
    true
}

pub fn is_scheme_prefix(pattern: &str) -> (r: bool)
    ensures
        r == spec_is_scheme_prefix(pattern@),
{
    scheme_prefix_chars(&str_chars(pattern))
}

/// `href` starts with `pattern`, or `pattern` is a scheme prefix whose
/// normalized form is not empty and starts the normalized `href`.
pub open spec fn spec_href_matches(href: Seq<char>, pattern: Seq<char>) -> bool {
    seq_starts_with(href, pattern)
        || (spec_is_scheme_prefix(pattern)
            && spec_normalize_href_scheme(pattern).len() > 0
            && seq_starts_with(spec_normalize_href_scheme(href), spec_normalize_href_scheme(pattern)))
}

pub fn href_matches(href: &str, pattern: &str) -> (r: bool)
    ensures
        r == spec_href_matches(href@, pattern@),
{
    let hc = str_chars(href);
    let pc = str_chars(pattern);
    if chars_start_with(&hc, &pc) {
        return true;
    }
    if !scheme_prefix_chars(&pc) {
        return false;
    }
    let np = normalize_href_chars(&pc);
    np.len() > 0 && chars_start_with(&normalize_href_chars(&hc), &np)
}

/// There are patterns and `href` is present and matches one of them.
pub open spec fn spec_remove_by_href(href: Option<Seq<char>>, patterns: Seq<Seq<char>>) -> bool {
    patterns.len() > 0 && match href {
        None => false,
        Some(h) => exists|i: int| 0 <= i < patterns.len() && spec_href_matches(h, #[trigger] patterns[i]),
    }
}

pub fn should_remove_by_href(href: Option<&str>, patterns: &Vec<String>) -> (r: bool)
    ensures
        r == spec_remove_by_href(
            match href { None => None, Some(h) => Some(h@) },
            strings_view(patterns@)),
{
    if patterns.len() == 0 {
        return false;
    }
    match href {
        None => false,
        Some(h) => {
            let mut i: usize = 0;
            while i < patterns.len()
                invariant
                    i <= patterns@.len(),
                    patterns@.len() > 0,
                    href == Some(h),
                    forall|t: int| 0 <= t < i ==> !spec_href_matches(h@, #[trigger] strings_view(patterns@)[t]),
                decreases patterns@.len() - i,
            {
                assert(strings_view(patterns@)[i as int] == patterns@[i as int]@);
                if href_matches(h, patterns[i].as_str()) {
                    assert(spec_href_matches(h@, strings_view(patterns@)[i as int]));
                    return true;
                }
                i = i + 1;
            }
            false
        },
    }
}

/// Link `k` is removed when its text is blank and it holds no image, when
/// it has no `href` or an `href` starting with `#`, or when its text or
/// `href` matches the caller's patterns.
pub open spec fn link_removed(
    kinds: Seq<NodeKindView>,
    ch: Seq<Seq<usize>>,
    k: int,
    patterns: Seq<Seq<char>>,
    lowered: Seq<Seq<char>>,
    hrefs: Seq<Seq<char>>,
) -> bool {
    let text = element_text(kinds, ch, k);
    let href = attr_plain(elem_attrs(kinds, k), "href"@);
    let has_image = named_below(kinds, ch, k, "img"@, kinds.len()).len() > 0;
    ||| trim(text).len() == 0 && !has_image
    ||| href is None
    ||| (href matches Some(h) && h.len() > 0 && h[0] == '#')
    ||| spec_remove_by_text(text, patterns, lowered)
    ||| spec_remove_by_href(href, hrefs)
}

/// The caller's text patterns, lowercased.
pub open spec fn lowered_patterns(patterns: Seq<Seq<char>>) -> Seq<Seq<char>> {
    patterns.map_values(|p: Seq<char>| unicode_lowercase(p))
}

/// For each node, whether it is a selected `<a>` or `<button>` to remove.
pub open spec fn link_flags(
    kinds: Seq<NodeKindView>,
    ch: Seq<Seq<usize>>,
    patterns: Seq<Seq<char>>,
    hrefs: Seq<Seq<char>>,
) -> Seq<bool> {
    Seq::new(kinds.len(), |k: int|
        (selected_named(kinds, ch, k, "a"@) || selected_named(kinds, ch, k, "button"@))
        && link_removed(kinds, ch, k, patterns, lowered_patterns(patterns), hrefs))
}

fn should_remove_link(
    m: &DocModel,
    k: usize,
    patterns: &Vec<String>,
    lowered: &Vec<String>,
    hrefs: &Vec<String>,
) -> (r: bool)
    requires
        m.wf(),
        k < m.kinds@.len(),
    ensures
        r == link_removed(m.kinds_v(), m.children_v(), k as int, strings_view(patterns@),
            strings_view(lowered@), strings_view(hrefs@)),
{
    let text = element_text_exec(m, k);
    let mut imgs: Vec<usize> = Vec::new();
    collect_named(m, k, "img", m.kinds.len(), &mut imgs);
    assert(imgs@ =~= named_below(m.kinds_v(), m.children_v(), k as int, "img"@, m.kinds@.len() as nat));
    let has_image = imgs.len() > 0;
    assert(m.kinds_v()[k as int] == m.kinds@[k as int]@);
    let href: Option<&String> = match &m.kinds[k] {
        NodeKind::Element { attrs, .. } => plain_attr_value(attrs, "href"),
        _ => None,
    };
    let ts = string_from_chars(text.as_slice());
    if trim_chars(&text).len() == 0 && !has_image {
        return true;
    }
    match href {
        None => true,
        Some(h) => {
            let hc = str_chars(h.as_str());
            (hc.len() > 0 && hc[0] == '#')
                || should_remove_by_text(ts.as_str(), patterns, lowered)
                || should_remove_by_href(Some(h.as_str()), hrefs)
        },
    }
}

/// Which nodes `filter_links` removes.
fn link_removal_flags(m: &DocModel, patterns: &Vec<String>, hrefs: &Vec<String>) -> (r: Vec<bool>)
    requires
        m.wf(),
    ensures
        r@ == link_flags(m.kinds_v(), m.children_v(), strings_view(patterns@), strings_view(hrefs@)),
{
    let lowered = crate::convert::parser::lowercase_all(patterns);
    let parents = parent_flags(m);
    let ghost want = link_flags(m.kinds_v(), m.children_v(), strings_view(patterns@), strings_view(hrefs@));
    let mut flags: Vec<bool> = Vec::new();
    let n = m.kinds.len();
    let mut k: usize = 0;
    while k < n
        invariant
            k <= n,
            n == m.kinds@.len(),
            m.wf(),
            parents@.len() == n,
            forall|t: int| 0 <= t < n ==> parents@[t] == has_parent(m.children_v(), t),
            strings_view(lowered@) == lowered_patterns(strings_view(patterns@)),
            want == link_flags(m.kinds_v(), m.children_v(), strings_view(patterns@), strings_view(hrefs@)),
            flags@ == want.take(k as int),
        decreases n - k,
    {
        assert(m.kinds_v()[k as int] == m.kinds@[k as int]@);
        let sel = match &m.kinds[k] {
            NodeKind::Element { name, .. } => parents[k] && (str_eq(name.as_str(), "a") || str_eq(name.as_str(), "button")),
            _ => false,
        };
        let hit = sel && should_remove_link(m, k, patterns, &lowered, hrefs);
        flags.push(hit);
        assert(flags@ == want.take(k + 1));
        k = k + 1;
    }
    assert(want.take(n as int) == want);
    flags
}

/// Removes, in the parsed document, the `<a>` and `<button>` elements that
/// `link_flags` marks.
pub fn filter_links_inplace(
    document: &mut ParsedHtml,
    link_text_content_to_remove: &Vec<String>,
    link_hrefs_to_remove: &Vec<String>,
)
    ensures
        final(document).source_text() == old(document).source_text(),
        final(document).is_fragment() == old(document).is_fragment(),
        final(document).removed_nodes() == old(document).removed_nodes() + flagged_ids(
            link_flags(tree_kinds(*old(document)), tree_children(*old(document)),
                strings_view(link_text_content_to_remove@), strings_view(link_hrefs_to_remove@)),
            tree_kinds(*old(document)).len() as int),
{
    let m = load_model(document);
    let flags = link_removal_flags(&m, link_text_content_to_remove, link_hrefs_to_remove);
    let ids = collect_flagged(&flags);
    detach_all(document, &ids);
}

/// The links of the fragment `html` that `filter_links` detaches.
pub open spec fn link_removed_nodes(html: Seq<char>, patterns: Seq<Seq<char>>, hrefs: Seq<Seq<char>>) -> Seq<usize> {
    let kinds = crate::html::html_node_kinds(html, true);
    let ch = crate::html::html_node_children(html, true, Seq::empty());
    flagged_ids(link_flags(kinds, ch, patterns, hrefs), kinds.len() as int)
}

/// The fragment `html` without the links `filter_links_inplace` removes,
/// serialized.
pub open spec fn spec_filter_links(html: Seq<char>, patterns: Seq<Seq<char>>, hrefs: Seq<Seq<char>>) -> Seq<char> {
    html_root_inner_html(html, true, link_removed_nodes(html, patterns, hrefs))
}

/// The fragment `html` parsed, with the links to remove detached.
fn links_removed_tree(html: &str, link_text_content_to_remove: &Vec<String>, link_hrefs_to_remove: &Vec<String>) -> (d: ParsedHtml)
    ensures
        d.source_text() == html@,
        d.is_fragment(),
        d.removed_nodes() == link_removed_nodes(html@, strings_view(link_text_content_to_remove@),
            strings_view(link_hrefs_to_remove@)),
{
    let mut d = parse_fragment(html);
    filter_links_inplace(&mut d, link_text_content_to_remove, link_hrefs_to_remove);
    assert(Seq::<usize>::empty() + link_removed_nodes(html@, strings_view(link_text_content_to_remove@),
        strings_view(link_hrefs_to_remove@)) =~= link_removed_nodes(html@,
        strings_view(link_text_content_to_remove@), strings_view(link_hrefs_to_remove@)));
    d
}

/// Removes from the fragment `html` the `<a>` and `<button>` elements that
/// `link_flags` marks, and serializes the rest.  The root `<html>` element
/// must survive (it is serialized).
pub fn filter_links(html: &str, link_text_content_to_remove: &Vec<String>, link_hrefs_to_remove: &Vec<String>) -> (r: String)
    requires
        root_element_present(html@, true, link_removed_nodes(html@, strings_view(link_text_content_to_remove@),
            strings_view(link_hrefs_to_remove@))),
    ensures
        r@ == spec_filter_links(html@, strings_view(link_text_content_to_remove@), strings_view(link_hrefs_to_remove@)),
{
    let d = links_removed_tree(html, link_text_content_to_remove, link_hrefs_to_remove);
    root_inner_html(&d)
}

/// `filter_links`, or `None` when the fragment's root `<html>` element
/// would not survive.
pub fn try_filter_links(html: &str, link_text_content_to_remove: &Vec<String>, link_hrefs_to_remove: &Vec<String>) -> (r: Option<String>)
    ensures
        r is Some <==> root_element_present(html@, true, link_removed_nodes(html@,
            strings_view(link_text_content_to_remove@), strings_view(link_hrefs_to_remove@))),
        r matches Some(s) ==> s@ == spec_filter_links(html@, strings_view(link_text_content_to_remove@),
            strings_view(link_hrefs_to_remove@)),
{
    let d = links_removed_tree(html, link_text_content_to_remove, link_hrefs_to_remove);
    if root_element_kept(&d) {
        Some(filter_links(html, link_text_content_to_remove, link_hrefs_to_remove))
    } else {
        None
    }
}

/// Sum of the text lengths (in bytes) of `links`, capped at `usize::MAX`.
pub open spec fn link_text_sum(kinds: Seq<NodeKindView>, ch: Seq<Seq<usize>>, links: Seq<usize>) -> nat
    decreases links.len(),
{
    if links.len() == 0 {
        0
    } else {
        let s = link_text_sum(kinds, ch, links.drop_last()) + utf8_len(element_text(kinds, ch, links.last() as int));
        if s > usize::MAX { usize::MAX as nat } else { s }
    }
}

/// Text length minus link text length minus 20 per link, over the
/// element's subtree.
pub open spec fn density_score(kinds: Seq<NodeKindView>, ch: Seq<Seq<usize>>, k: int) -> int {
    let links = named_below(kinds, ch, k, "a"@, kinds.len());
    clamp_i32(utf8_len(element_text(kinds, ch, k)) - link_text_sum(kinds, ch, links) - links.len() * 20)
}

/// The density score of an element: its text length in bytes, minus the
/// text length of every `<a>` below it, minus 20 per such link, clamped to
/// `i32`.  So an element whose whole text is link text scores -20 per link,
/// and text outside links counts one point per byte.
pub proof fn lemma_density_score_law(kinds: Seq<NodeKindView>, ch: Seq<Seq<usize>>, k: int)
    ensures
        ({
            let links = named_below(kinds, ch, k, "a"@, kinds.len());
            let text = utf8_len(element_text(kinds, ch, k)) as int;
            let link_text = link_text_sum(kinds, ch, links) as int;
            &&& density_score(kinds, ch, k) == clamp_i32(text - link_text - 20 * links.len())
            &&& link_text == text ==> density_score(kinds, ch, k) == clamp_i32(-20 * links.len())
        }),
{
}

fn chars_byte_len(v: &Vec<char>) -> (r: usize)
    ensures
        r == utf8_len(v@),
{
    let s = string_from_chars(v.as_slice());
    byte_len(s.as_str())
}

fn calculate_text_density_score(m: &DocModel, k: usize) -> (r: i32)
    requires
        m.wf(),
        k < m.kinds@.len(),
    ensures
        r == density_score(m.kinds_v(), m.children_v(), k as int),
{
    let ghost kv = m.kinds_v();
    let ghost ch = m.children_v();
    let text_length = chars_byte_len(&element_text_exec(m, k));
    let mut links: Vec<usize> = Vec::new();
    collect_named(m, k, "a", m.kinds.len(), &mut links);
    assert(links@ =~= named_below(kv, ch, k as int, "a"@, m.kinds@.len() as nat));
    assert(forall|t: int| 0 <= t < links@.len() ==> #[trigger] links@[t] < m.kinds@.len());
    let mut link_text_length: usize = 0;
    let mut i: usize = 0;
    while i < links.len()
        invariant
            m.wf(),
            kv == m.kinds_v(),
            ch == m.children_v(),
            i <= links@.len(),
            forall|t: int| 0 <= t < links@.len() ==> #[trigger] links@[t] < m.kinds@.len(),
            link_text_length == link_text_sum(kv, ch, links@.take(i as int)),
        decreases links@.len() - i,
    {
        assert(links@.take(i + 1).drop_last() == links@.take(i as int));
        let l = chars_byte_len(&element_text_exec(m, links[i]));
        link_text_length = link_text_length.saturating_add(l);
        i = i + 1;
    }
    assert(links@.take(i as int) == links@);
    compute_density_score(text_length, link_text_length, links.len())
}

/// The candidates of the density filter: the `main`, then `article`, then
/// `section`, then `div` elements, each in arena order.
pub open spec fn density_candidates(kinds: Seq<NodeKindView>, ch: Seq<Seq<usize>>) -> Seq<usize> {
    all_named(kinds, ch, "main"@, kinds.len() as int) + all_named(kinds, ch, "article"@, kinds.len() as int)
        + all_named(kinds, ch, "section"@, kinds.len() as int) + all_named(kinds, ch, "div"@, kinds.len() as int)
}

/// The first candidate with the highest density score.
pub open spec fn best_scoring(kinds: Seq<NodeKindView>, ch: Seq<Seq<usize>>, cands: Seq<usize>) -> Option<usize>
    decreases cands.len(),
{
    if cands.len() == 0 {
        None
    } else {
        match best_scoring(kinds, ch, cands.drop_last()) {
            None => Some(cands.last()),
            Some(b) => if density_score(kinds, ch, cands.last() as int) > density_score(kinds, ch, b as int) {
                Some(cands.last())
            } else {
                Some(b)
            },
        }
    }
}

/// The density filter's choice among candidates: one of them, scoring at
/// least as high as every candidate and strictly higher than every
/// candidate before it (the first of the best on ties).
pub proof fn lemma_best_scoring_law(kinds: Seq<NodeKindView>, ch: Seq<Seq<usize>>, cands: Seq<usize>)
    ensures
        cands.len() == 0 <==> best_scoring(kinds, ch, cands) is None,
        best_scoring(kinds, ch, cands) matches Some(b) ==> exists|i: int| 0 <= i < cands.len() && cands[i] == b && {
            &&& forall|j: int| 0 <= j < cands.len() ==>
                    density_score(kinds, ch, #[trigger] cands[j] as int) <= density_score(kinds, ch, b as int)
            &&& forall|j: int| 0 <= j < i ==>
                    density_score(kinds, ch, #[trigger] cands[j] as int) < density_score(kinds, ch, b as int)
        },
    decreases cands.len(),
{
    if cands.len() > 0 {
        let p = cands.drop_last();
        lemma_best_scoring_law(kinds, ch, p);
        let l = cands.last();
        match best_scoring(kinds, ch, p) {
            None => {
                let i = cands.len() - 1;
                assert(cands[i] == l);
            },
            Some(b) => {
                let i = choose|i: int| 0 <= i < p.len() && p[i] == b && {
                    &&& forall|j: int| 0 <= j < p.len() ==>
                            density_score(kinds, ch, #[trigger] p[j] as int) <= density_score(kinds, ch, b as int)
                    &&& forall|j: int| 0 <= j < i ==>
                            density_score(kinds, ch, #[trigger] p[j] as int) < density_score(kinds, ch, b as int)
                };
                if density_score(kinds, ch, l as int) > density_score(kinds, ch, b as int) {
                    let w = cands.len() - 1;
                    assert(cands[w] == l);
                    assert forall|j: int| 0 <= j < cands.len() implies
                        density_score(kinds, ch, #[trigger] cands[j] as int) <= density_score(kinds, ch, l as int) by {
                        if j < p.len() { assert(cands[j] == p[j]); }
                    }
                    assert forall|j: int| 0 <= j < w implies
                        density_score(kinds, ch, #[trigger] cands[j] as int) < density_score(kinds, ch, l as int) by {
                        assert(cands[j] == p[j]);
                    }
                } else {
                    assert(cands[i] == b);
                    assert forall|j: int| 0 <= j < cands.len() implies
                        density_score(kinds, ch, #[trigger] cands[j] as int) <= density_score(kinds, ch, b as int) by {
                        if j < p.len() { assert(cands[j] == p[j]); }
                    }
                    assert forall|j: int| 0 <= j < i implies
                        density_score(kinds, ch, #[trigger] cands[j] as int) < density_score(kinds, ch, b as int) by {
                        assert(cands[j] == p[j]);
                    }
                }
            },
        }
    }
}

/// The element with the highest text-density score among the `main`,
/// `article`, `section` and `div` elements (the first one on ties).
pub fn apply_text_density_filter(document: &ParsedHtml) -> (r: Option<usize>)
    ensures
        r == best_scoring(tree_kinds(*document), tree_children(*document),
            density_candidates(tree_kinds(*document), tree_children(*document))),
{
    let m = load_model(document);
    let parents = parent_flags(&m);
    let ghost kv = m.kinds_v();
    let ghost ch = m.children_v();
    let mut cands = all_named_exec(&m, &parents, "main");
    let mut more = all_named_exec(&m, &parents, "article");
    cands.append(&mut more);
    let mut more = all_named_exec(&m, &parents, "section");
    cands.append(&mut more);
    let mut more = all_named_exec(&m, &parents, "div");
    cands.append(&mut more);
    assert(cands@ =~= density_candidates(kv, ch));
    let mut best: Option<usize> = None;
    let mut best_score: i32 = 0;
    let mut i: usize = 0;
    while i < cands.len()
        invariant
            m.wf(),
            kv == m.kinds_v(),
            ch == m.children_v(),
            i <= cands@.len(),
            forall|t: int| 0 <= t < cands@.len() ==> #[trigger] cands@[t] < m.kinds@.len(),
            best == best_scoring(kv, ch, cands@.take(i as int)),
            best matches Some(b) ==> best_score == density_score(kv, ch, b as int),
        decreases cands@.len() - i,
    {
        assert(cands@.take(i + 1).drop_last() == cands@.take(i as int));
        let c = cands[i];
        let sc = calculate_text_density_score(&m, c);
        match best {
            None => {
                best = Some(c);
                best_score = sc;
            },
            Some(_) => {
                if sc > best_score {
                    best = Some(c);
                    best_score = sc;
                }
            },
        }
        i = i + 1;
    }
    assert(cands@.take(i as int) == cands@);
    best
}

} // verus!
