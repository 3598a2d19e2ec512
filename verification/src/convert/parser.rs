//! Metadata of a page: title, `<meta>` and `<link>` tags, canonical URL
//! and language.

use vstd::prelude::*;
use crate::dom::{
    element_text, element_text_exec, first_named, first_named_exec, has_parent, load_model,
    parent_flags, tree_children, tree_kinds, DocModel,
};
use crate::html::{parse_document, NodeKind, NodeKindView, ParsedHtml};
use crate::learn::selectors::{attr_plain, plain_attr_value};
use crate::learn::snippets::ascii_lower_seq;
use crate::learn::types::strings_view;
use crate::text::{
    ascii_lower_char, str_chars, str_eq, string_from_chars, to_lowercase, trim, trim_chars,
    unicode_lowercase,
};

verus! {

/// Characters that end a URL scheme (`:`) or show there is none.
pub open spec fn is_url_delim(c: char) -> bool {
    c == ':' || c == '/' || c == '?' || c == '#'
}

/// Index of the first delimiter of `t` at or after `i`, or -1.
pub open spec fn first_delim_from(t: Seq<char>, i: int) -> int
    decreases t.len() - i,
{
    if i < 0 || i >= t.len() {
        -1
    } else if is_url_delim(t[i]) {
        i
    } else {
        first_delim_from(t, i + 1)
    }
}

/// A URL is safe when, trimmed, it is not empty and either has no scheme
/// (a `/`, `?` or `#` comes before any `:`, or there is no delimiter) or its
/// scheme is `http` or `https`, ignoring ASCII case.
pub open spec fn spec_is_safe_url(url: Seq<char>) -> bool {
    let t = trim(url);
    let k = first_delim_from(t, 0);
    t.len() > 0 && (k < 0 || t[k] != ':'
        || ascii_lower_seq(t.take(k)) == seq!['h', 't', 't', 'p']
        || ascii_lower_seq(t.take(k)) == seq!['h', 't', 't', 'p', 's'])
}

pub fn is_safe_url(url: &str) -> (r: bool)
    ensures
        r == spec_is_safe_url(url@),
{
    let t = trim_chars(&str_chars(url));
    if t.len() == 0 {
        return false;
    }
    let mut i: usize = 0;
    while i < t.len() && !(t[i] == ':' || t[i] == '/' || t[i] == '?' || t[i] == '#')
        invariant
            i <= t@.len(),
            first_delim_from(t@, 0) == first_delim_from(t@, i as int),
        decreases t@.len() - i,
    {
        i = i + 1;
    }
    if i == t.len() || t[i] != ':' {
        return true;
    }
    let mut scheme: Vec<char> = Vec::new();
    let mut j: usize = 0;
    while j < i
        invariant
            i < t@.len(),
            j <= i,
            scheme@ == ascii_lower_seq(t@.take(j as int)),
        decreases i - j,
    {
        scheme.push(ascii_lower_char(t[j]));
        assert(ascii_lower_seq(t@.take(j + 1)) =~= ascii_lower_seq(t@.take(j as int)).push(crate::text::ascii_lower(t@[j as int])));
        j = j + 1;
    }
    let n = scheme.len();
    let http = (n == 4 || n == 5) && scheme[0] == 'h' && scheme[1] == 't' && scheme[2] == 't' && scheme[3] == 'p'
        && (n == 4 || scheme[4] == 's');
    proof {
        if http {
            if n == 4 {
                assert(scheme@ =~= seq!['h', 't', 't', 'p']);
            } else {
                assert(scheme@ =~= seq!['h', 't', 't', 'p', 's']);
            }
        } else {
            assert(scheme@ != seq!['h', 't', 't', 'p'] || scheme@[3] != 'p');
        }
    }
    http
}

/// The `type` of a `<link>`, trimmed and lowercased, unless blank.
pub open spec fn spec_normalize_link_type(link_type: Option<Seq<char>>) -> Option<Seq<char>> {
    match link_type {
        None => None,
        Some(v) => if unicode_lowercase(trim(v)).len() == 0 { None } else { Some(unicode_lowercase(trim(v))) },
    }
}

pub fn normalize_link_type(link_type: Option<&str>) -> (r: Option<String>)
    ensures
        match r {
            None => spec_normalize_link_type(match link_type { None => None, Some(v) => Some(v@) }) is None,
            Some(s) => spec_normalize_link_type(match link_type { None => None, Some(v) => Some(v@) }) == Some(s@),
        },
{
    match link_type {
        None => None,
        Some(v) => {
            let t = string_from_chars(trim_chars(&str_chars(v)).as_slice());
            let l = to_lowercase(t.as_str());
            if l.as_str().is_empty() {
                None
            } else {
                Some(l)
            }
        },
    }
}

/// `Html::parse_document`.
pub fn parse_html(html: &str) -> (r: ParsedHtml)
    ensures
        r.source_text() == html@,
        !r.is_fragment(),
        r.removed_nodes() == Seq::<usize>::empty(),
{
    parse_document(html)
}

/// The trimmed text of the first `<title>` element, unless blank.
pub open spec fn spec_title(kinds: Seq<NodeKindView>, ch: Seq<Seq<usize>>) -> Option<Seq<char>> {
    let k = first_named(kinds, ch, "title"@, kinds.len() as int);
    if k < 0 {
        None
    } else if trim(element_text(kinds, ch, k)).len() == 0 {
        None
    } else {
        Some(trim(element_text(kinds, ch, k)))
    }
}

pub fn extract_title(document: &ParsedHtml) -> (r: Option<String>)
    ensures
        match r {
            None => spec_title(tree_kinds(*document), tree_children(*document)) is None,
            Some(s) => spec_title(tree_kinds(*document), tree_children(*document)) == Some(s@),
        },
{
    let m = load_model(document);
    let parents = parent_flags(&m);
    match first_named_exec(&m, &parents, "title") {
        None => None,
        Some(k) => {
            let t = trim_chars(&element_text_exec(&m, k));
            if t.len() == 0 {
                None
            } else {
                Some(string_from_chars(t.as_slice()))
            }
        },
    }
}

/// The attributes of node `k`, when it is an element.
pub open spec fn elem_attrs(kinds: Seq<NodeKindView>, k: int) -> Seq<crate::html::AttrView> {
    match kinds[k] {
        NodeKindView::Element { attrs, .. } => attrs,
        _ => Seq::empty(),
    }
}

/// The `lang` of the first `<html>` element, trimmed and cut to 35
/// characters, unless blank.
pub open spec fn spec_lang(kinds: Seq<NodeKindView>, ch: Seq<Seq<usize>>) -> Option<Seq<char>> {
    let k = first_named(kinds, ch, "html"@, kinds.len() as int);
    if k < 0 {
        None
    } else {
        match attr_plain(elem_attrs(kinds, k), "lang"@) {
            None => None,
            Some(v) => {
                let t = trim(v);
                let c = if t.len() > 35 { t.take(35) } else { t };
                if c.len() == 0 { None } else { Some(c) }
            },
        }
    }
}

pub fn extract_lang(document: &ParsedHtml) -> (r: Option<String>)
    ensures
        match r {
            None => spec_lang(tree_kinds(*document), tree_children(*document)) is None,
            Some(s) => spec_lang(tree_kinds(*document), tree_children(*document)) == Some(s@),
        },
{
    let m = load_model(document);
    let parents = parent_flags(&m);
    match first_named_exec(&m, &parents, "html") {
        None => None,
        Some(k) => {
            assert(m.kinds_v()[k as int] == m.kinds@[k as int]@);
            match &m.kinds[k] {
                NodeKind::Element { attrs, .. } => {
                    match plain_attr_value(attrs, "lang") {
                        None => None,
                        Some(v) => {
                            let t = trim_chars(&str_chars(v.as_str()));
                            let n: usize = if t.len() > 35 { 35 } else { t.len() };
                            let mut c: Vec<char> = Vec::new();
                            let mut i: usize = 0;
                            while i < n
                                invariant
                                    n <= t@.len(),
                                    i <= n,
                                    c@ == t@.take(i as int),
                                decreases n - i,
                            {
                                c.push(t[i]);
                                assert(t@.take(i + 1) == t@.take(i as int).push(t@[i as int]));
                                i = i + 1;
                            }
                            assert(t@.len() <= 35 ==> t@.take(n as int) == t@);
                            if c.len() == 0 {
                                None
                            } else {
                                Some(string_from_chars(c.as_slice()))
                            }
                        },
                    }
                },
                _ => None,
            }
        },
    }
}

/// The first index below `n` whose flag is set, or -1.
pub open spec fn first_flagged(flags: Seq<bool>, n: int) -> int
    decreases n,
{
    if n <= 0 {
        -1
    } else {
        let f = first_flagged(flags, n - 1);
        if f >= 0 { f } else if flags[n - 1] { n - 1 } else { -1 }
    }
}

pub proof fn lemma_first_flagged_stable(flags: Seq<bool>, a: int, b: int)
    requires
        a <= b,
        first_flagged(flags, a) >= 0,
    ensures
        first_flagged(flags, b) == first_flagged(flags, a),
    decreases b - a,
{
    if a < b {
        lemma_first_flagged_stable(flags, a, b - 1);
    }
}

/// The selector of the canonical link.
pub open spec fn canonical_selector() -> Seq<char> {
    "link[rel=\"canonical\"]"@
}

/// The `href` of the first canonical `<link>`, when it is safe.  (The
/// selector is matched by `scraper`; should it fail to parse, there is no
/// canonical URL.)
pub open spec fn spec_canonical(src: Seq<char>, frag: bool, removed: Seq<usize>) -> Option<Seq<char>> {
    if !crate::html::css_selector_parses(canonical_selector()) {
        None
    } else {
        let flags = crate::html::html_select_flags(src, frag, removed, canonical_selector());
        let k = first_flagged(flags, flags.len() as int);
        if k < 0 {
            None
        } else {
            match attr_plain(elem_attrs(crate::html::html_node_kinds(src, frag), k), "href"@) {
                None => None,
                Some(h) => if spec_is_safe_url(h) { Some(h) } else { None },
            }
        }
    }
}

pub fn extract_canonical_url(document: &ParsedHtml) -> (r: Option<String>)
    ensures
        match r {
            None => spec_canonical(document.source_text(), document.is_fragment(), document.removed_nodes()) is None,
            Some(s) => spec_canonical(document.source_text(), document.is_fragment(), document.removed_nodes()) == Some(s@),
        },
{
    let flags = match crate::html::select_flags(document, "link[rel=\"canonical\"]") {
        None => return None,
        Some(f) => f,
    };
    let m = load_model(document);
    let mut k: usize = 0;
    while k < flags.len() && !flags[k]
        invariant
            k <= flags@.len(),
            first_flagged(flags@, k as int) == -1,
        decreases flags@.len() - k,
    {
        k = k + 1;
    }
    if k == flags.len() {
        return None;
    }
    proof {
        lemma_first_flagged_stable(flags@, k + 1, flags@.len() as int);
    }
    assert(m.kinds_v()[k as int] == m.kinds@[k as int]@);
    match &m.kinds[k] {
        NodeKind::Element { attrs, .. } => match plain_attr_value(attrs, "href") {
            None => None,
            Some(h) => if is_safe_url(h.as_str()) { Some(h.clone()) } else { None },
        },
        _ => None,
    }
}

/// `<meta>` keys whose content is a URL.
pub open spec fn url_meta_keys() -> Seq<Seq<char>> {
    seq![
        "og:url"@, "og:image"@, "og:image:url"@, "og:image:secure_url"@, "og:video"@,
        "og:video:url"@, "og:video:secure_url"@, "og:audio"@, "og:audio:url"@,
        "og:audio:secure_url"@, "twitter:url"@, "twitter:image"@, "twitter:image:src"@,
        "twitter:player"@,
    ]
}

/// `key` is one of the URL keys, ignoring ASCII case.
pub open spec fn is_url_meta_key(key: Seq<char>) -> bool {
    url_meta_keys().contains(ascii_lower_seq(key))
}

fn url_meta_key(key: &str) -> (r: bool)
    ensures
        r == is_url_meta_key(key@),
{
    let lowered = crate::learn::snippets::ascii_lowercase_chars(&str_chars(key));
    let l = string_from_chars(lowered.as_slice());
    let s = l.as_str();
    let r = str_eq(s, "og:url") || str_eq(s, "og:image") || str_eq(s, "og:image:url")
        || str_eq(s, "og:image:secure_url") || str_eq(s, "og:video") || str_eq(s, "og:video:url")
        || str_eq(s, "og:video:secure_url") || str_eq(s, "og:audio") || str_eq(s, "og:audio:url")
        || str_eq(s, "og:audio:secure_url") || str_eq(s, "twitter:url") || str_eq(s, "twitter:image")
        || str_eq(s, "twitter:image:src") || str_eq(s, "twitter:player");
    proof {
        let u = url_meta_keys();
        if url_meta_keys().contains(s@) {
            let i = choose|i: int| 0 <= i < u.len() && u[i] == s@;
            assert(i == 0 || i == 1 || i == 2 || i == 3 || i == 4 || i == 5 || i == 6 || i == 7
                || i == 8 || i == 9 || i == 10 || i == 11 || i == 12 || i == 13);
        }
        if r {
            if s@ == "og:url"@ { assert(u[0] == s@); }
            else if s@ == "og:image"@ { assert(u[1] == s@); }
            else if s@ == "og:image:url"@ { assert(u[2] == s@); }
            else if s@ == "og:image:secure_url"@ { assert(u[3] == s@); }
            else if s@ == "og:video"@ { assert(u[4] == s@); }
            else if s@ == "og:video:url"@ { assert(u[5] == s@); }
            else if s@ == "og:video:secure_url"@ { assert(u[6] == s@); }
            else if s@ == "og:audio"@ { assert(u[7] == s@); }
            else if s@ == "og:audio:url"@ { assert(u[8] == s@); }
            else if s@ == "og:audio:secure_url"@ { assert(u[9] == s@); }
            else if s@ == "twitter:url"@ { assert(u[10] == s@); }
            else if s@ == "twitter:image"@ { assert(u[11] == s@); }
            else if s@ == "twitter:image:src"@ { assert(u[12] == s@); }
            else { assert(u[13] == s@); }
        }
    }
    r
}

pub open spec fn pairs_view(v: Seq<(String, String)>) -> Seq<(Seq<char>, Seq<char>)> {
    v.map_values(|p: (String, String)| (p.0@, p.1@))
}

pub open spec fn has_key<V>(v: Seq<(Seq<char>, V)>, key: Seq<char>) -> bool {
    exists|i: int| 0 <= i < v.len() && (#[trigger] v[i]).0 == key
}

/// The entry that `<meta>` node `k` contributes: its `name` (else its
/// `property`) and its `content`, unless a URL key has an unsafe content.
pub open spec fn meta_entry(kinds: Seq<NodeKindView>, ch: Seq<Seq<usize>>, k: int) -> Option<(Seq<char>, Seq<char>)> {
    let attrs = elem_attrs(kinds, k);
    let key = match attr_plain(attrs, "name"@) { Some(n) => Some(n), None => attr_plain(attrs, "property"@) };
    if !crate::dom::selected_named(kinds, ch, k, "meta"@) {
        None
    } else {
        match (key, attr_plain(attrs, "content"@)) {
            (Some(k), Some(c)) => if is_url_meta_key(k) && !spec_is_safe_url(c) { None } else { Some((k, c)) },
            _ => None,
        }
    }
}

/// The meta map built from the nodes below `n`: the first entry of each key.
pub open spec fn meta_fold(kinds: Seq<NodeKindView>, ch: Seq<Seq<usize>>, n: int) -> Seq<(Seq<char>, Seq<char>)>
    decreases n,
{
    if n <= 0 {
        Seq::empty()
    } else {
        let prev = meta_fold(kinds, ch, n - 1);
        match meta_entry(kinds, ch, n - 1) {
            Some(e) => if has_key(prev, e.0) { prev } else { prev.push(e) },
            None => prev,
        }
    }
}

fn find_key(v: &Vec<(String, String)>, key: &String) -> (r: bool)
    ensures
        r == has_key(pairs_view(v@), key@),
{
    let mut i: usize = 0;
    while i < v.len()
        invariant
            i <= v@.len(),
            forall|t: int| 0 <= t < i ==> (#[trigger] pairs_view(v@)[t]).0 != key@,
        decreases v@.len() - i,
    {
        assert(pairs_view(v@)[i as int] == (v@[i as int].0@, v@[i as int].1@));
        if v[i].0 == *key {
            return true;
        }
        i = i + 1;
    }
    false
}

/// `<meta name/property>` contents, first occurrence of each key, in
/// document order.
pub fn extract_meta_tags(document: &ParsedHtml) -> (r: Vec<(String, String)>)
    ensures
        pairs_view(r@) == meta_fold(tree_kinds(*document), tree_children(*document), tree_kinds(*document).len() as int),
{
    let m = load_model(document);
    let parents = parent_flags(&m);
    let ghost kv = m.kinds_v();
    let ghost ch = m.children_v();
    let mut out: Vec<(String, String)> = Vec::new();
    let mut k: usize = 0;
    while k < m.kinds.len()
        invariant
            k <= m.kinds@.len(),
            m.wf(),
            kv == m.kinds_v(),
            ch == m.children_v(),
            parents@.len() == m.kinds@.len(),
            forall|t: int| 0 <= t < parents@.len() ==> parents@[t] == has_parent(ch, t),
            pairs_view(out@) == meta_fold(kv, ch, k as int),
        decreases m.kinds@.len() - k,
    {
        assert(kv[k as int] == m.kinds@[k as int]@);
        let ghost entry = meta_entry(kv, ch, k as int);
        let mut got: Option<(String, String)> = None;
        match &m.kinds[k] {
            NodeKind::Element { name, attrs } => {
                if parents[k] && str_eq(name.as_str(), "meta") {
                    let key = match plain_attr_value(attrs, "name") {
                        Some(n) => Some(n),
                        None => plain_attr_value(attrs, "property"),
                    };
                    match (key, plain_attr_value(attrs, "content")) {
                        (Some(kk), Some(c)) => {
                            if !(url_meta_key(kk.as_str()) && !is_safe_url(c.as_str())) {
                                got = Some((kk.clone(), c.clone()));
                            }
                        },
                        _ => {},
                    }
                }
            },
            _ => {},
        }
        assert(match got { Some(g) => entry == Some((g.0@, g.1@)), None => entry is None });
        match got {
            Some(g) => {
                if !find_key(&out, &g.0) {
                    let ghost before = pairs_view(out@);
                    out.push(g);
                    assert(pairs_view(out@) =~= before.push(entry.unwrap()));
                }
            },
            None => {},
        }
        k = k + 1;
    }
    out
}

/// What a `<link rel>` token maps to: the first `href` seen for an
/// ordinary token, or, for `alternate`, the distinct hrefs of each type.
pub enum LinkValue {
    Href(String),
    Alternates(Vec<(String, Vec<String>)>),
}

pub enum LinkValueView {
    Href(Seq<char>),
    Alternates(Seq<(Seq<char>, Seq<Seq<char>>)>),
}

pub open spec fn buckets_view(b: Seq<(String, Vec<String>)>) -> Seq<(Seq<char>, Seq<Seq<char>>)> {
    b.map_values(|e: (String, Vec<String>)| (e.0@, strings_view(e.1@)))
}

impl View for LinkValue {
    type V = LinkValueView;

    open spec fn view(&self) -> LinkValueView {
        match self {
            LinkValue::Href(h) => LinkValueView::Href(h@),
            LinkValue::Alternates(b) => LinkValueView::Alternates(buckets_view(b@)),
        }
    }
}

pub open spec fn links_view(v: Seq<(String, LinkValue)>) -> Seq<(Seq<char>, LinkValueView)> {
    v.map_values(|e: (String, LinkValue)| (e.0@, e.1@))
}

/// The index of the first entry with key `key`, or -1.
pub open spec fn key_index<V>(v: Seq<(Seq<char>, V)>, key: Seq<char>) -> int
    decreases v.len(),
{
    if v.len() == 0 {
        -1
    } else {
        let i = key_index(v.drop_last(), key);
        if i >= 0 { i } else if v.last().0 == key { v.len() - 1 } else { -1 }
    }
}

/// Adds `href` to bucket `key` unless it is there already.
pub open spec fn bucket_insert(b: Seq<(Seq<char>, Seq<Seq<char>>)>, key: Seq<char>, href: Seq<char>)
    -> Seq<(Seq<char>, Seq<Seq<char>>)>
{
    let i = key_index(b, key);
    if i < 0 {
        b.push((key, seq![href]))
    } else if b[i].1.contains(href) {
        b
    } else {
        b.update(i, (key, b[i].1.push(href)))
    }
}

/// The bucket of alternate links without a type.
pub open spec fn default_alternate_type() -> Seq<char> {
    "unspecified"@
}

/// Records `href` as an alternate link of type `link_type` (or of the
/// default type); an `alternate` entry that is a plain href is left alone.
pub open spec fn spec_insert_alternate(links: Seq<(Seq<char>, LinkValueView)>, link_type: Option<Seq<char>>, href: Seq<char>)
    -> Seq<(Seq<char>, LinkValueView)>
{
    let key = match link_type { None => default_alternate_type(), Some(t) => t };
    let i = key_index(links, "alternate"@);
    if i < 0 {
        links.push(("alternate"@, LinkValueView::Alternates(bucket_insert(Seq::empty(), key, href))))
    } else {
        match links[i].1 {
            LinkValueView::Alternates(b) => links.update(i, ("alternate"@, LinkValueView::Alternates(bucket_insert(b, key, href)))),
            LinkValueView::Href(_) => links,
        }
    }
}

proof fn lemma_key_index<V>(v: Seq<(Seq<char>, V)>, key: Seq<char>, k: int)
    requires
        0 <= k <= v.len(),
        forall|t: int| 0 <= t < k ==> (#[trigger] v[t]).0 != key,
    ensures
        k < v.len() && v[k].0 == key ==> key_index(v, key) == k,
        k == v.len() ==> key_index(v, key) == -1,
    decreases v.len(),
{
    if v.len() > 0 {
        if k < v.len() {
            if v[k].0 == key {
                if k < v.len() - 1 {
                    assert forall|t: int| 0 <= t < k implies (#[trigger] v.drop_last()[t]).0 != key by {
                        assert(v.drop_last()[t] == v[t]);
                    }
                    lemma_key_index(v.drop_last(), key, k);
                    assert(v.drop_last()[k] == v[k]);
                } else {
                    assert forall|t: int| 0 <= t < v.len() - 1 implies (#[trigger] v.drop_last()[t]).0 != key by {
                        assert(v.drop_last()[t] == v[t]);
                    }
                    lemma_key_index(v.drop_last(), key, v.len() - 1);
                }
            }
        } else {
            assert forall|t: int| 0 <= t < v.len() - 1 implies (#[trigger] v.drop_last()[t]).0 != key by {
                assert(v.drop_last()[t] == v[t]);
            }
            lemma_key_index(v.drop_last(), key, v.len() - 1);
        }
    }
}

proof fn lemma_key_index_found<V>(v: Seq<(Seq<char>, V)>, key: Seq<char>)
    ensures
        key_index(v, key) < v.len(),
        key_index(v, key) >= 0 ==> v[key_index(v, key)].0 == key,
    decreases v.len(),
{
    if v.len() > 0 {
        lemma_key_index_found(v.drop_last(), key);
        let i = key_index(v.drop_last(), key);
        if i >= 0 {
            assert(v.drop_last()[i] == v[i]);
        }
    }
}

fn find_bucket(b: &Vec<(String, Vec<String>)>, key: &String) -> (r: Option<usize>)
    ensures
        match r {
            Some(i) => i < b@.len() && key_index(buckets_view(b@), key@) == i,
            None => key_index(buckets_view(b@), key@) == -1,
        },
{
    let ghost bv = buckets_view(b@);
    let mut i: usize = 0;
    while i < b.len()
        invariant
            i <= b@.len(),
            bv == buckets_view(b@),
            forall|t: int| 0 <= t < i ==> (#[trigger] bv[t]).0 != key@,
        decreases b@.len() - i,
    {
        assert(bv[i as int] == (b@[i as int].0@, strings_view(b@[i as int].1@)));
        if b[i].0 == *key {
            proof { lemma_key_index(bv, key@, i as int); }
            return Some(i);
        }
        i = i + 1;
    }
    proof { lemma_key_index(bv, key@, i as int); }
    None
}

fn find_link(v: &Vec<(String, LinkValue)>, key: &str) -> (r: Option<usize>)
    ensures
        match r {
            Some(i) => i < v@.len() && key_index(links_view(v@), key@) == i,
            None => key_index(links_view(v@), key@) == -1,
        },
{
    let ghost lv = links_view(v@);
    let mut i: usize = 0;
    while i < v.len()
        invariant
            i <= v@.len(),
            lv == links_view(v@),
            forall|t: int| 0 <= t < i ==> (#[trigger] lv[t]).0 != key@,
        decreases v@.len() - i,
    {
        assert(lv[i as int] == (v@[i as int].0@, v@[i as int].1@));
        if str_eq(v[i].0.as_str(), key) {
            proof { lemma_key_index(lv, key@, i as int); }
            return Some(i);
        }
        i = i + 1;
    }
    proof { lemma_key_index(lv, key@, i as int); }
    None
}

fn contains_str(v: &Vec<String>, x: &str) -> (r: bool)
    ensures
        r == strings_view(v@).contains(x@),
{
    let mut i: usize = 0;
    while i < v.len()
        invariant
            i <= v@.len(),
            forall|t: int| 0 <= t < i ==> strings_view(v@)[t] != x@,
        decreases v@.len() - i,
    {
        assert(strings_view(v@)[i as int] == v@[i as int]@);
        if str_eq(v[i].as_str(), x) {
            return true;
        }
        i = i + 1;
    }
    false
}

fn bucket_insert_exec(b: &mut Vec<(String, Vec<String>)>, key: String, href: &str)
    ensures
        buckets_view(final(b)@) == bucket_insert(buckets_view(old(b)@), key@, href@),
{
    let ghost bv = buckets_view(b@);
    match find_bucket(b, &key) {
        None => {
            let mut hs: Vec<String> = Vec::new();
            hs.push(href.to_owned());
            assert(strings_view(hs@) =~= seq![href@]);
            b.push((key, hs));
            assert(buckets_view(b@) =~= bv.push((key@, seq![href@])));
        },
        Some(i) => {
            assert(bv[i as int] == (b@[i as int].0@, strings_view(b@[i as int].1@)));
            proof { lemma_key_index_found(bv, key@); }
            if !contains_str(&b[i].1, href) {
                let (k0, mut hs) = b.remove(i);
                let ghost old_hs = strings_view(hs@);
                hs.push(href.to_owned());
                assert(strings_view(hs@) =~= old_hs.push(href@));
                b.insert(i, (k0, hs));
                assert(buckets_view(b@) =~= bv.update(i as int, (key@, old_hs.push(href@))));
            }
        },
    }
}

pub fn insert_alternate_link(links: &mut Vec<(String, LinkValue)>, link_type: Option<&str>, href: &str)
    ensures
        links_view(final(links)@) == spec_insert_alternate(links_view(old(links)@),
            match link_type { None => None, Some(t) => Some(t@) }, href@),
{
    let ghost lv = links_view(links@);
    let ghost lt = match link_type { None => None, Some(t) => Some(t@) };
    let key: String = match link_type {
        None => "unspecified".to_owned(),
        Some(t) => t.to_owned(),
    };
    assert(key@ == match lt { None => default_alternate_type(), Some(t) => t });
    match find_link(links, "alternate") {
        None => {
            let mut b: Vec<(String, Vec<String>)> = Vec::new();
            let ghost kk = key@;
            bucket_insert_exec(&mut b, key, href);
            assert(buckets_view(b@) == bucket_insert(Seq::empty(), kk, href@)) by {
                assert(buckets_view(Seq::<(String, Vec<String>)>::empty()) =~= Seq::empty());
            }
            let a = "alternate".to_owned();
            links.push((a, LinkValue::Alternates(b)));
            assert(links_view(links@) =~= lv.push(("alternate"@, LinkValueView::Alternates(
                bucket_insert(Seq::empty(), kk, href@)))));
        },
        Some(i) => {
            assert(lv[i as int] == (links@[i as int].0@, links@[i as int].1@));
            proof { lemma_key_index_found(lv, "alternate"@); }
            let (k0, v0) = links.remove(i);
            let ghost mid = links@;
            match v0 {
                LinkValue::Alternates(b) => {
                    let mut b = b;
                    let ghost kk = key@;
                    let ghost bb = buckets_view(b@);
                    bucket_insert_exec(&mut b, key, href);
                    links.insert(i, (k0, LinkValue::Alternates(b)));
                    assert(links_view(links@) =~= lv.update(i as int, ("alternate"@,
                        LinkValueView::Alternates(bucket_insert(bb, kk, href@)))));
                },
                LinkValue::Href(h) => {
                    links.insert(i, (k0, LinkValue::Href(h)));
                    assert(links_view(links@) =~= lv);
                },
            }
        },
    }
}

/// `rel` values that are resource hints or stylesheets, not page metadata.
pub open spec fn excluded_rel_values() -> Seq<Seq<char>> {
    seq!["dns-prefetch"@, "preconnect"@, "prefetch"@, "prerender"@, "preload"@, "modulepreload"@, "stylesheet"@]
}

fn is_excluded_rel(t: &str) -> (r: bool)
    ensures
        r == excluded_rel_values().contains(t@),
{
    let r = str_eq(t, "dns-prefetch") || str_eq(t, "preconnect") || str_eq(t, "prefetch")
        || str_eq(t, "prerender") || str_eq(t, "preload") || str_eq(t, "modulepreload")
        || str_eq(t, "stylesheet");
    proof {
        let u = excluded_rel_values();
        if u.contains(t@) {
            let i = choose|i: int| 0 <= i < u.len() && u[i] == t@;
            assert(i == 0 || i == 1 || i == 2 || i == 3 || i == 4 || i == 5 || i == 6);
        }
        if r {
            if t@ == "dns-prefetch"@ { assert(u[0] == t@); }
            else if t@ == "preconnect"@ { assert(u[1] == t@); }
            else if t@ == "prefetch"@ { assert(u[2] == t@); }
            else if t@ == "prerender"@ { assert(u[3] == t@); }
            else if t@ == "preload"@ { assert(u[4] == t@); }
            else if t@ == "modulepreload"@ { assert(u[5] == t@); }
            else { assert(u[6] == t@); }
        }
    }
    r
}

/// One `rel` token of a link: skipped when excluded or removed by the
/// caller (compared lowercased), recorded as an alternate link, or mapped
/// to `href` unless the token already has an entry.
pub open spec fn token_step(
    links: Seq<(Seq<char>, LinkValueView)>,
    tok: Seq<char>,
    href: Seq<char>,
    link_type: Option<Seq<char>>,
    custom: Seq<Seq<char>>,
) -> Seq<(Seq<char>, LinkValueView)> {
    let norm = unicode_lowercase(tok);
    if excluded_rel_values().contains(norm) || custom.contains(norm) {
        links
    } else if norm == "alternate"@ {
        spec_insert_alternate(links, link_type, href)
    } else if has_key(links, norm) {
        links
    } else {
        links.push((norm, LinkValueView::Href(href)))
    }
}

pub open spec fn tokens_fold(
    links: Seq<(Seq<char>, LinkValueView)>,
    toks: Seq<Seq<char>>,
    href: Seq<char>,
    link_type: Option<Seq<char>>,
    custom: Seq<Seq<char>>,
) -> Seq<(Seq<char>, LinkValueView)>
    decreases toks.len(),
{
    if toks.len() == 0 {
        links
    } else {
        token_step(tokens_fold(links, toks.drop_last(), href, link_type, custom), toks.last(), href, link_type, custom)
    }
}

/// What `<link>` node `k` adds: for a link with `rel` and a safe `href`,
/// each whitespace-separated token of `rel` in turn.
pub open spec fn link_step(
    kinds: Seq<NodeKindView>,
    ch: Seq<Seq<usize>>,
    k: int,
    links: Seq<(Seq<char>, LinkValueView)>,
    custom: Seq<Seq<char>>,
) -> Seq<(Seq<char>, LinkValueView)> {
    let attrs = elem_attrs(kinds, k);
    if !crate::dom::selected_named(kinds, ch, k, "link"@) {
        links
    } else {
        match (attr_plain(attrs, "rel"@), attr_plain(attrs, "href"@)) {
            (Some(rel), Some(href)) => if !spec_is_safe_url(href) {
                links
            } else {
                tokens_fold(links, crate::text::words(rel, crate::text::unicode_ws_sep()), href,
                    spec_normalize_link_type(attr_plain(attrs, "type"@)), custom)
            },
            _ => links,
        }
    }
}

pub open spec fn links_fold(kinds: Seq<NodeKindView>, ch: Seq<Seq<usize>>, n: int, custom: Seq<Seq<char>>)
    -> Seq<(Seq<char>, LinkValueView)>
    decreases n,
{
    if n <= 0 {
        Seq::empty()
    } else {
        link_step(kinds, ch, n - 1, links_fold(kinds, ch, n - 1, custom), custom)
    }
}

/// The caller's tokens to remove, lowercased.
pub open spec fn custom_rel_tokens(tokens: Option<Seq<Seq<char>>>) -> Seq<Seq<char>> {
    match tokens {
        None => Seq::empty(),
        Some(t) => t.map_values(|x: Seq<char>| unicode_lowercase(x)),
    }
}

pub fn lowercase_all(v: &Vec<String>) -> (r: Vec<String>)
    ensures
        strings_view(r@) == strings_view(v@).map_values(|x: Seq<char>| unicode_lowercase(x)),
{
    let mut out: Vec<String> = Vec::new();
    let mut i: usize = 0;
    while i < v.len()
        invariant
            i <= v@.len(),
            strings_view(out@) == strings_view(v@).take(i as int).map_values(|x: Seq<char>| unicode_lowercase(x)),
        decreases v@.len() - i,
    {
        let ghost before = strings_view(out@);
        let l = to_lowercase(v[i].as_str());
        out.push(l);
        assert(strings_view(out@) =~= before.push(unicode_lowercase(v@[i as int]@)));
        assert(strings_view(v@).take(i + 1) =~= strings_view(v@).take(i as int).push(v@[i as int]@));
        assert(strings_view(v@).take(i + 1).map_values(|x: Seq<char>| unicode_lowercase(x))
            =~= strings_view(v@).take(i as int).map_values(|x: Seq<char>| unicode_lowercase(x)).push(unicode_lowercase(v@[i as int]@)));
        i = i + 1;
    }
    assert(strings_view(v@).take(i as int) =~= strings_view(v@));
    out
}

fn link_tokens(
    links: &mut Vec<(String, LinkValue)>,
    rel: &str,
    href: &str,
    link_type: &Option<String>,
    custom: &Vec<String>,
)
    ensures
        links_view(final(links)@) == tokens_fold(links_view(old(links)@),
            crate::text::words(rel@, crate::text::unicode_ws_sep()), href@,
            match link_type { None => None, Some(t) => Some(t@) }, strings_view(custom@)),
{
    let toks = crate::text::unicode_words_exec(&str_chars(rel));
    let ghost tv = toks@.map_values(|w: Vec<char>| w@);
    let ghost lt = match link_type { None => None, Some(t) => Some(t@) };
    let ghost cv = strings_view(custom@);
    let mut i: usize = 0;
    while i < toks.len()
        invariant
            i <= toks@.len(),
            tv == toks@.map_values(|w: Vec<char>| w@),
            lt == match link_type { None => None, Some(t) => Some(t@) },
            cv == strings_view(custom@),
            links_view(links@) == tokens_fold(links_view(old(links)@), tv.take(i as int), href@, lt, cv),
        decreases toks@.len() - i,
    {
        assert(tv.take(i + 1).drop_last() == tv.take(i as int));
        assert(tv.take(i + 1).last() == toks@[i as int]@);
        let tok = string_from_chars(toks[i].as_slice());
        let norm = to_lowercase(tok.as_str());
        if is_excluded_rel(norm.as_str()) || contains_str(custom, norm.as_str()) {
        } else if str_eq(norm.as_str(), "alternate") {
            let t: Option<&str> = match link_type { None => None, Some(t) => Some(t.as_str()) };
            insert_alternate_link(links, t, href);
        } else {
            match find_link(links, norm.as_str()) {
                Some(_) => {
                    proof { lemma_key_index_found(links_view(links@), norm@); }
                },
                None => {
                    proof {
                        if has_key(links_view(links@), norm@) {
                            let q = choose|q: int| 0 <= q < links_view(links@).len() && (#[trigger] links_view(links@)[q]).0 == norm@;
                            lemma_key_index_first(links_view(links@), norm@, q);
                        }
                    }
                    let ghost before = links_view(links@);
                    links.push((norm, LinkValue::Href(href.to_owned())));
                    assert(links_view(links@) =~= before.push((unicode_lowercase(toks@[i as int]@), LinkValueView::Href(href@))));
                },
            }
        }
        i = i + 1;
    }
    assert(tv.take(i as int) == tv);
}

proof fn lemma_key_index_first<V>(v: Seq<(Seq<char>, V)>, key: Seq<char>, q: int)
    requires
        0 <= q < v.len(),
        v[q].0 == key,
    ensures
        key_index(v, key) >= 0,
    decreases v.len(),
{
    if q < v.len() - 1 {
        assert(v.drop_last()[q] == v[q]);
        lemma_key_index_first(v.drop_last(), key, q);
    }
}

/// `<link rel>` tags as a map from lowercased `rel` token to the first
/// `href` (alternate links gathered by type), in document order.
pub fn extract_link_tags(document: &ParsedHtml, link_rel_tokens_to_remove: Option<&Vec<String>>) -> (r: Vec<(String, LinkValue)>)
    ensures
        links_view(r@) == links_fold(tree_kinds(*document), tree_children(*document), tree_kinds(*document).len() as int,
            custom_rel_tokens(match link_rel_tokens_to_remove { None => None, Some(t) => Some(strings_view(t@)) })),
{
    let custom: Vec<String> = match link_rel_tokens_to_remove {
        None => Vec::new(),
        Some(t) => lowercase_all(t),
    };
    let ghost cv = strings_view(custom@);
    assert(cv == custom_rel_tokens(match link_rel_tokens_to_remove { None => None, Some(t) => Some(strings_view(t@)) }));
    let m = load_model(document);
    let parents = parent_flags(&m);
    let ghost kv = m.kinds_v();
    let ghost ch = m.children_v();
    let mut out: Vec<(String, LinkValue)> = Vec::new();
    let mut k: usize = 0;
    while k < m.kinds.len()
        invariant
            k <= m.kinds@.len(),
            m.wf(),
            kv == m.kinds_v(),
            ch == m.children_v(),
            cv == strings_view(custom@),
            parents@.len() == m.kinds@.len(),
            forall|t: int| 0 <= t < parents@.len() ==> parents@[t] == has_parent(ch, t),
            links_view(out@) == links_fold(kv, ch, k as int, cv),
        decreases m.kinds@.len() - k,
    {
        assert(kv[k as int] == m.kinds@[k as int]@);
        match &m.kinds[k] {
            NodeKind::Element { name, attrs } => {
                if parents[k] && str_eq(name.as_str(), "link") {
                    match (plain_attr_value(attrs, "rel"), plain_attr_value(attrs, "href")) {
                        (Some(rel), Some(href)) => {
                            if is_safe_url(href.as_str()) {
                                let t = match plain_attr_value(attrs, "type") {
                                    None => normalize_link_type(None),
                                    Some(t) => normalize_link_type(Some(t.as_str())),
                                };
                                link_tokens(&mut out, rel.as_str(), href.as_str(), &t, &custom);
                            }
                        },
                        _ => {},
                    }
                }
            },
            _ => {},
        }
        k = k + 1;
    }
    out
}

/// No key occurs twice.
pub open spec fn keys_distinct<V>(v: Seq<(Seq<char>, V)>) -> bool {
    forall|i: int, j: int| #![trigger v[i], v[j]] 0 <= i < j < v.len() ==> v[i].0 != v[j].0
}

/// Alternate-link buckets: no type twice, no href twice within a type.
pub open spec fn buckets_well_formed(b: Seq<(Seq<char>, Seq<Seq<char>>)>) -> bool {
    &&& keys_distinct(b)
    &&& forall|j: int| 0 <= j < b.len() ==> (#[trigger] b[j]).1.no_duplicates()
}

/// The link map: no `rel` token twice, and well-formed alternate buckets.
pub open spec fn links_well_formed(v: Seq<(Seq<char>, LinkValueView)>) -> bool {
    &&& keys_distinct(v)
    &&& forall|i: int| 0 <= i < v.len() ==> match (#[trigger] v[i]).1 {
            LinkValueView::Alternates(b) => buckets_well_formed(b),
            LinkValueView::Href(_) => true,
        }
}

proof fn lemma_key_index_absent<V>(v: Seq<(Seq<char>, V)>, key: Seq<char>)
    requires
        key_index(v, key) < 0,
    ensures
        !has_key(v, key),
{
    if has_key(v, key) {
        let q = choose|q: int| 0 <= q < v.len() && (#[trigger] v[q]).0 == key;
        lemma_key_index_first(v, key, q);
    }
}

proof fn lemma_push_new_key<V>(v: Seq<(Seq<char>, V)>, e: (Seq<char>, V))
    requires
        keys_distinct(v),
        !has_key(v, e.0),
    ensures
        keys_distinct(v.push(e)),
{
    let w = v.push(e);
    assert forall|i: int, j: int| 0 <= i < j < w.len() implies w[i].0 != w[j].0 by {
        if j == v.len() {
            assert(w[i] == v[i]);
        } else {
            assert(w[i] == v[i] && w[j] == v[j]);
        }
    }
}

proof fn lemma_bucket_insert_wf(b: Seq<(Seq<char>, Seq<Seq<char>>)>, key: Seq<char>, href: Seq<char>)
    requires
        buckets_well_formed(b),
    ensures
        buckets_well_formed(bucket_insert(b, key, href)),
{
    let i = key_index(b, key);
    lemma_key_index_found(b, key);
    if i < 0 {
        lemma_key_index_absent(b, key);
        lemma_push_new_key(b, (key, seq![href]));
        let w = b.push((key, seq![href]));
        assert forall|j: int| 0 <= j < w.len() implies (#[trigger] w[j]).1.no_duplicates() by {
            if j < b.len() {
                assert(w[j] == b[j]);
            }
        }
    } else if !b[i].1.contains(href) {
        let w = b.update(i, (key, b[i].1.push(href)));
        assert forall|p: int, q: int| 0 <= p < q < w.len() implies w[p].0 != w[q].0 by {
            assert(b[p].0 != b[q].0);
        }
        assert forall|j: int| 0 <= j < w.len() implies (#[trigger] w[j]).1.no_duplicates() by {
            if j == i {
                let s = b[i].1;
                assert(s.no_duplicates());
                assert forall|x: int, y: int| 0 <= x < s.push(href).len() && 0 <= y < s.push(href).len() && x != y
                    implies s.push(href)[x] != s.push(href)[y] by {
                    if x < s.len() && y < s.len() {
                    } else if x < s.len() {
                        assert(s.contains(s[x]));
                    } else {
                        assert(s.contains(s[y]));
                    }
                }
            }
        }
    }
}

proof fn lemma_insert_alternate_wf(links: Seq<(Seq<char>, LinkValueView)>, link_type: Option<Seq<char>>, href: Seq<char>)
    requires
        links_well_formed(links),
    ensures
        links_well_formed(spec_insert_alternate(links, link_type, href)),
{
    let key = match link_type { None => default_alternate_type(), Some(t) => t };
    let i = key_index(links, "alternate"@);
    lemma_key_index_found(links, "alternate"@);
    if i < 0 {
        lemma_key_index_absent(links, "alternate"@);
        let b0 = Seq::<(Seq<char>, Seq<Seq<char>>)>::empty();
        lemma_bucket_insert_wf(b0, key, href);
        let e = ("alternate"@, LinkValueView::Alternates(bucket_insert(b0, key, href)));
        lemma_push_new_key(links, e);
        let w = links.push(e);
        assert forall|j: int| 0 <= j < w.len() implies match (#[trigger] w[j]).1 {
            LinkValueView::Alternates(b) => buckets_well_formed(b),
            LinkValueView::Href(_) => true,
        } by {
            if j < links.len() {
                assert(w[j] == links[j]);
            }
        }
    } else {
        match links[i].1 {
            LinkValueView::Alternates(b) => {
                assert(buckets_well_formed(b));
                lemma_bucket_insert_wf(b, key, href);
                let w = links.update(i, ("alternate"@, LinkValueView::Alternates(bucket_insert(b, key, href))));
                assert forall|p: int, q: int| 0 <= p < q < w.len() implies w[p].0 != w[q].0 by {
                    assert(links[p].0 != links[q].0);
                }
            },
            LinkValueView::Href(_) => {},
        }
    }
}

proof fn lemma_token_step_wf(
    links: Seq<(Seq<char>, LinkValueView)>,
    tok: Seq<char>,
    href: Seq<char>,
    link_type: Option<Seq<char>>,
    custom: Seq<Seq<char>>,
)
    requires
        links_well_formed(links),
    ensures
        links_well_formed(token_step(links, tok, href, link_type, custom)),
{
    let norm = unicode_lowercase(tok);
    if excluded_rel_values().contains(norm) || custom.contains(norm) {
    } else if norm == "alternate"@ {
        lemma_insert_alternate_wf(links, link_type, href);
    } else if !has_key(links, norm) {
        let e = (norm, LinkValueView::Href(href));
        lemma_push_new_key(links, e);
        let w = links.push(e);
        assert forall|j: int| 0 <= j < w.len() implies match (#[trigger] w[j]).1 {
            LinkValueView::Alternates(b) => buckets_well_formed(b),
            LinkValueView::Href(_) => true,
        } by {
            if j < links.len() {
                assert(w[j] == links[j]);
            }
        }
    }
}

proof fn lemma_tokens_fold_wf(
    links: Seq<(Seq<char>, LinkValueView)>,
    toks: Seq<Seq<char>>,
    href: Seq<char>,
    link_type: Option<Seq<char>>,
    custom: Seq<Seq<char>>,
)
    requires
        links_well_formed(links),
    ensures
        links_well_formed(tokens_fold(links, toks, href, link_type, custom)),
    decreases toks.len(),
{
    if toks.len() > 0 {
        lemma_tokens_fold_wf(links, toks.drop_last(), href, link_type, custom);
        lemma_token_step_wf(tokens_fold(links, toks.drop_last(), href, link_type, custom), toks.last(), href, link_type, custom);
    }
}

/// The link map of a page is a map: each `rel` token has one entry, each
/// alternate-link type one bucket, and a bucket holds each href once.
pub proof fn lemma_link_map_well_formed(kinds: Seq<NodeKindView>, ch: Seq<Seq<usize>>, n: int, custom: Seq<Seq<char>>)
    ensures
        links_well_formed(links_fold(kinds, ch, n, custom)),
    decreases n,
{
    if n > 0 {
        lemma_link_map_well_formed(kinds, ch, n - 1, custom);
        let prev = links_fold(kinds, ch, n - 1, custom);
        let attrs = elem_attrs(kinds, n - 1);
        if crate::dom::selected_named(kinds, ch, n - 1, "link"@) {
            match (attr_plain(attrs, "rel"@), attr_plain(attrs, "href"@)) {
                (Some(rel), Some(href)) => if spec_is_safe_url(href) {
                    lemma_tokens_fold_wf(prev, crate::text::words(rel, crate::text::unicode_ws_sep()), href,
                        spec_normalize_link_type(attr_plain(attrs, "type"@)), custom);
                },
                _ => {},
            }
        }
    }
}

/// The meta map of a page is a map: each key has one entry (the first).
pub proof fn lemma_meta_keys_distinct(kinds: Seq<NodeKindView>, ch: Seq<Seq<usize>>, n: int)
    ensures
        keys_distinct(meta_fold(kinds, ch, n)),
    decreases n,
{
    if n > 0 {
        lemma_meta_keys_distinct(kinds, ch, n - 1);
        match meta_entry(kinds, ch, n - 1) {
            Some(e) => if !has_key(meta_fold(kinds, ch, n - 1), e.0) {
                lemma_push_new_key(meta_fold(kinds, ch, n - 1), e);
            },
            None => {},
        }
    }
}

/// Every href that the link map holds has a safe scheme.
pub open spec fn link_hrefs_safe(v: Seq<(Seq<char>, LinkValueView)>) -> bool {
    forall|i: int| 0 <= i < v.len() ==> match (#[trigger] v[i]).1 {
        LinkValueView::Href(h) => spec_is_safe_url(h),
        LinkValueView::Alternates(b) => forall|j: int, q: int| 0 <= j < b.len() && 0 <= q < b[j].1.len()
            ==> spec_is_safe_url(#[trigger] b[j].1[q]),
    }
}

proof fn lemma_bucket_insert_safe(b: Seq<(Seq<char>, Seq<Seq<char>>)>, key: Seq<char>, href: Seq<char>)
    requires
        spec_is_safe_url(href),
        forall|j: int, q: int| 0 <= j < b.len() && 0 <= q < b[j].1.len() ==> spec_is_safe_url(#[trigger] b[j].1[q]),
    ensures
        ({
            let w = bucket_insert(b, key, href);
            forall|j: int, q: int| 0 <= j < w.len() && 0 <= q < w[j].1.len() ==> spec_is_safe_url(#[trigger] w[j].1[q])
        }),
{
    let i = key_index(b, key);
    lemma_key_index_found(b, key);
    let w = bucket_insert(b, key, href);
    assert forall|j: int, q: int| 0 <= j < w.len() && 0 <= q < w[j].1.len() implies spec_is_safe_url(#[trigger] w[j].1[q]) by {
        if i < 0 {
            if j < b.len() {
                assert(w[j] == b[j]);
            }
        } else if !b[i].1.contains(href) && j == i {
            if q < b[i].1.len() {
                assert(w[j].1[q] == b[i].1[q]);
            }
        }
    }
}

proof fn lemma_token_step_safe(
    links: Seq<(Seq<char>, LinkValueView)>,
    tok: Seq<char>,
    href: Seq<char>,
    link_type: Option<Seq<char>>,
    custom: Seq<Seq<char>>,
)
    requires
        spec_is_safe_url(href),
        link_hrefs_safe(links),
    ensures
        link_hrefs_safe(token_step(links, tok, href, link_type, custom)),
{
    let norm = unicode_lowercase(tok);
    let w = token_step(links, tok, href, link_type, custom);
    if excluded_rel_values().contains(norm) || custom.contains(norm) {
    } else if norm == "alternate"@ {
        let key = match link_type { None => default_alternate_type(), Some(t) => t };
        let i = key_index(links, "alternate"@);
        lemma_key_index_found(links, "alternate"@);
        let b0 = Seq::<(Seq<char>, Seq<Seq<char>>)>::empty();
        if i < 0 {
            lemma_bucket_insert_safe(b0, key, href);
            assert forall|k: int| 0 <= k < w.len() implies match (#[trigger] w[k]).1 {
                LinkValueView::Href(h) => spec_is_safe_url(h),
                LinkValueView::Alternates(b) => forall|j: int, q: int| 0 <= j < b.len() && 0 <= q < b[j].1.len()
                    ==> spec_is_safe_url(#[trigger] b[j].1[q]),
            } by {
                if k < links.len() {
                    assert(w[k] == links[k]);
                }
            }
        } else {
            match links[i].1 {
                LinkValueView::Alternates(b) => {
                    lemma_bucket_insert_safe(b, key, href);
                },
                LinkValueView::Href(_) => {},
            }
        }
    } else if !has_key(links, norm) {
        assert forall|k: int| 0 <= k < w.len() implies match (#[trigger] w[k]).1 {
            LinkValueView::Href(h) => spec_is_safe_url(h),
            LinkValueView::Alternates(b) => forall|j: int, q: int| 0 <= j < b.len() && 0 <= q < b[j].1.len()
                ==> spec_is_safe_url(#[trigger] b[j].1[q]),
        } by {
            if k < links.len() {
                assert(w[k] == links[k]);
            }
        }
    }
}

proof fn lemma_tokens_fold_safe(
    links: Seq<(Seq<char>, LinkValueView)>,
    toks: Seq<Seq<char>>,
    href: Seq<char>,
    link_type: Option<Seq<char>>,
    custom: Seq<Seq<char>>,
)
    requires
        spec_is_safe_url(href),
        link_hrefs_safe(links),
    ensures
        link_hrefs_safe(tokens_fold(links, toks, href, link_type, custom)),
    decreases toks.len(),
{
    if toks.len() > 0 {
        lemma_tokens_fold_safe(links, toks.drop_last(), href, link_type, custom);
        lemma_token_step_safe(tokens_fold(links, toks.drop_last(), href, link_type, custom), toks.last(), href, link_type, custom);
    }
}

/// Every URL that a page's metadata carries has a safe scheme: each href
/// of the link map, the content of each URL-valued meta key, and the
/// canonical URL.
pub proof fn lemma_metadata_urls_safe(
    kinds: Seq<NodeKindView>,
    ch: Seq<Seq<usize>>,
    n: int,
    custom: Seq<Seq<char>>,
    src: Seq<char>,
    frag: bool,
    removed: Seq<usize>,
)
    ensures
        link_hrefs_safe(links_fold(kinds, ch, n, custom)),
        forall|i: int| 0 <= i < meta_fold(kinds, ch, n).len() && is_url_meta_key(#[trigger] meta_fold(kinds, ch, n)[i].0)
            ==> spec_is_safe_url(meta_fold(kinds, ch, n)[i].1),
        spec_canonical(src, frag, removed) matches Some(u) ==> spec_is_safe_url(u),
    decreases n,
{
    if n > 0 {
        lemma_metadata_urls_safe(kinds, ch, n - 1, custom, src, frag, removed);
        let prev = links_fold(kinds, ch, n - 1, custom);
        let attrs = elem_attrs(kinds, n - 1);
        if crate::dom::selected_named(kinds, ch, n - 1, "link"@) {
            match (attr_plain(attrs, "rel"@), attr_plain(attrs, "href"@)) {
                (Some(rel), Some(href)) => if spec_is_safe_url(href) {
                    lemma_tokens_fold_safe(prev, crate::text::words(rel, crate::text::unicode_ws_sep()), href,
                        spec_normalize_link_type(attr_plain(attrs, "type"@)), custom);
                },
                _ => {},
            }
        }
        let mp = meta_fold(kinds, ch, n - 1);
        let m = meta_fold(kinds, ch, n);
        assert forall|i: int| 0 <= i < m.len() && is_url_meta_key(#[trigger] m[i].0) implies spec_is_safe_url(m[i].1) by {
            if i < mp.len() {
                assert(m[i] == mp[i]);
            }
        }
    }
}

/// `rel` values that name resource hints or stylesheets.
pub open spec fn is_resource_hint_rel(key: Seq<char>) -> bool {
    key == "dns-prefetch"@ || key == "preconnect"@ || key == "prefetch"@ || key == "prerender"@
        || key == "preload"@ || key == "modulepreload"@ || key == "stylesheet"@
}

proof fn lemma_hint_excluded(key: Seq<char>)
    ensures
        is_resource_hint_rel(key) ==> excluded_rel_values().contains(key),
        !is_resource_hint_rel("alternate"@),
{
    let u = excluded_rel_values();
    assert(u[0] == "dns-prefetch"@);
    assert(u[1] == "preconnect"@);
    assert(u[2] == "prefetch"@);
    assert(u[3] == "prerender"@);
    assert(u[4] == "preload"@);
    assert(u[5] == "modulepreload"@);
    assert(u[6] == "stylesheet"@);
    reveal_strlit("alternate");
    reveal_strlit("dns-prefetch");
    reveal_strlit("preconnect");
    reveal_strlit("prefetch");
    reveal_strlit("prerender");
    reveal_strlit("preload");
    reveal_strlit("modulepreload");
    reveal_strlit("stylesheet");
    assert("alternate"@[0] != "prerender"@[0]);
}

pub open spec fn no_hint_keys(v: Seq<(Seq<char>, LinkValueView)>) -> bool {
    forall|i: int| 0 <= i < v.len() ==> !is_resource_hint_rel(#[trigger] v[i].0)
}

proof fn lemma_token_step_no_hint(
    links: Seq<(Seq<char>, LinkValueView)>,
    tok: Seq<char>,
    href: Seq<char>,
    link_type: Option<Seq<char>>,
    custom: Seq<Seq<char>>,
)
    requires
        no_hint_keys(links),
    ensures
        no_hint_keys(token_step(links, tok, href, link_type, custom)),
{
    let norm = unicode_lowercase(tok);
    lemma_hint_excluded(norm);
    let w = token_step(links, tok, href, link_type, custom);
    if excluded_rel_values().contains(norm) || custom.contains(norm) {
    } else if norm == "alternate"@ {
        let i = key_index(links, "alternate"@);
        lemma_key_index_found(links, "alternate"@);
        assert forall|k: int| 0 <= k < w.len() implies !is_resource_hint_rel(#[trigger] w[k].0) by {
            if k < links.len() && !(i >= 0 && k == i) {
                assert(w[k] == links[k]);
            }
        }
    } else if !has_key(links, norm) {
        assert forall|k: int| 0 <= k < w.len() implies !is_resource_hint_rel(#[trigger] w[k].0) by {
            if k < links.len() {
                assert(w[k] == links[k]);
            }
        }
    }
}

proof fn lemma_tokens_fold_no_hint(
    links: Seq<(Seq<char>, LinkValueView)>,
    toks: Seq<Seq<char>>,
    href: Seq<char>,
    link_type: Option<Seq<char>>,
    custom: Seq<Seq<char>>,
)
    requires
        no_hint_keys(links),
    ensures
        no_hint_keys(tokens_fold(links, toks, href, link_type, custom)),
    decreases toks.len(),
{
    if toks.len() > 0 {
        lemma_tokens_fold_no_hint(links, toks.drop_last(), href, link_type, custom);
        lemma_token_step_no_hint(tokens_fold(links, toks.drop_last(), href, link_type, custom), toks.last(), href, link_type, custom);
    }
}

/// The link map never holds a resource hint or a stylesheet: no key is
/// `dns-prefetch`, `preconnect`, `prefetch`, `prerender`, `preload`,
/// `modulepreload` or `stylesheet`, whatever the page and the caller's
/// tokens.
pub proof fn lemma_link_map_has_no_resource_hints(kinds: Seq<NodeKindView>, ch: Seq<Seq<usize>>, n: int, custom: Seq<Seq<char>>)
    ensures
        forall|i: int| 0 <= i < links_fold(kinds, ch, n, custom).len() ==>
            !is_resource_hint_rel(#[trigger] links_fold(kinds, ch, n, custom)[i].0),
    decreases n,
{
    if n > 0 {
        lemma_link_map_has_no_resource_hints(kinds, ch, n - 1, custom);
        let prev = links_fold(kinds, ch, n - 1, custom);
        let attrs = elem_attrs(kinds, n - 1);
        if crate::dom::selected_named(kinds, ch, n - 1, "link"@) {
            match (attr_plain(attrs, "rel"@), attr_plain(attrs, "href"@)) {
                (Some(rel), Some(href)) => if spec_is_safe_url(href) {
                    lemma_tokens_fold_no_hint(prev, crate::text::words(rel, crate::text::unicode_ws_sep()), href,
                        spec_normalize_link_type(attr_plain(attrs, "type"@)), custom);
                },
                _ => {},
            }
        }
    }
}

} // verus!
