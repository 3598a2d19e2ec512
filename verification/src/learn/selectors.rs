//! CSS selector candidates for elements and their ranking.

use vstd::prelude::*;
use crate::text::{
    byte_len, is_alphabetic, is_alphanumeric, is_ascii_alpha, is_ascii_digit, str_chars,
    string_from_chars, unicode_alphabetic, unicode_alphanumeric, utf8_len,
};

verus! {

/// Maximum count of ASCII digits allowed in a stable selector token.
pub const MAX_SELECTOR_DIGITS: usize = 4;
/// Minimum length of a hexadecimal segment that looks like a hash.
pub const MIN_HEX_SEGMENT_LENGTH: usize = 8;
/// Minimum byte length of a stable selector token.
pub const MIN_SELECTOR_TOKEN_LENGTH: usize = 2;
/// Maximum byte length of a stable selector token.
pub const MAX_SELECTOR_TOKEN_LENGTH: usize = 64;

/// Characters that must be backslash-escaped in a CSS identifier.
pub open spec fn css_special(c: char) -> bool {
    c == '!' || c == '"' || c == '#' || c == '$' || c == '%' || c == '&' || c == '\''
        || c == '(' || c == ')' || c == '*' || c == '+' || c == ',' || c == '.' || c == '/'
        || c == ':' || c == ';' || c == '<' || c == '=' || c == '>' || c == '?' || c == '@'
        || c == '[' || c == '\\' || c == ']' || c == '^' || c == '`' || c == '{' || c == '|'
        || c == '}' || c == '~'
}

/// How the character at position `i` is written in an escaped identifier.
pub open spec fn css_escape_char(i: int, c: char) -> Seq<char> {
    if i == 0 && is_ascii_digit(c) {
        seq!['\\', '3', c, ' ']
    } else if css_special(c) {
        seq!['\\', c]
    } else {
        seq![c]
    }
}

/// The escaped identifier: each character written as `css_escape_char`
/// says, in order.
pub open spec fn spec_css_escape(s: Seq<char>) -> Seq<char>
    decreases s.len(),
{
    if s.len() == 0 {
        Seq::empty()
    } else {
        spec_css_escape(s.drop_last()) + css_escape_char(s.len() - 1, s.last())
    }
}

fn is_css_special(c: char) -> (r: bool)
    ensures
        r == css_special(c),
{
    c == '!' || c == '"' || c == '#' || c == '$' || c == '%' || c == '&' || c == '\''
        || c == '(' || c == ')' || c == '*' || c == '+' || c == ',' || c == '.' || c == '/'
        || c == ':' || c == ';' || c == '<' || c == '=' || c == '>' || c == '?' || c == '@'
        || c == '[' || c == '\\' || c == ']' || c == '^' || c == '`' || c == '{' || c == '|'
        || c == '}' || c == '~'
}

/// Escapes a class name or id for use in a CSS selector.
pub fn css_escape_identifier(value: &str) -> (r: String)
    ensures
        r@ == spec_css_escape(value@),
{
    let chars = str_chars(value);
    let mut out: Vec<char> = Vec::new();
    let mut i: usize = 0;
    while i < chars.len()
        invariant
            i <= chars@.len(),
            chars@ == value@,
            out@ == spec_css_escape(chars@.take(i as int)),
        decreases chars@.len() - i,
    {
        let c = chars[i];
        assert(chars@.take(i + 1).drop_last() == chars@.take(i as int));
        if i == 0 && '0' <= c && c <= '9' {
            out.push('\\');
            out.push('3');
            out.push(c);
            out.push(' ');
        } else if is_css_special(c) {
            out.push('\\');
            out.push(c);
        } else {
            out.push(c);
        }
        i = i + 1;
    }
    assert(chars@.take(chars@.len() as int) == chars@);
    string_from_chars(out.as_slice())
}

pub open spec fn min20(n: nat) -> nat {
    if n < 20 { n } else { 20 }
}

/// Ranking weight of a selector: ids above classes above attribute
/// selectors above the rest, then by byte length up to 20.
pub open spec fn spec_selector_priority(s: Seq<char>) -> nat {
    let l = min20(utf8_len(s));
    if s.len() > 0 && s[0] == '#' {
        30 + l
    } else if s.len() > 0 && s[0] == '.' {
        20 + l
    } else if s.len() > 0 && s[0] == '[' {
        10 + l
    } else {
        l
    }
}

pub fn selector_priority(selector: &str) -> (r: usize)
    ensures
        r == spec_selector_priority(selector@),
{
    let len = byte_len(selector);
    let l = if len < 20 { len } else { 20 };
    let chars = str_chars(selector);
    if chars.len() > 0 && chars[0] == '#' {
        30 + l
    } else if chars.len() > 0 && chars[0] == '.' {
        20 + l
    } else if chars.len() > 0 && chars[0] == '[' {
        10 + l
    } else {
        l
    }
}

pub open spec fn is_ascii_hexdigit(c: char) -> bool {
    is_ascii_digit(c) || ('a' <= c && c <= 'f') || ('A' <= c && c <= 'F')
}

/// A segment looks like a hash: at least `MIN_HEX_SEGMENT_LENGTH` bytes of
/// ASCII hex digits.
pub open spec fn spec_is_hex_like(seg: Seq<char>) -> bool {
    utf8_len(seg) >= MIN_HEX_SEGMENT_LENGTH && forall|i: int| 0 <= i < seg.len() ==> is_ascii_hexdigit(#[trigger] seg[i])
}

proof fn lemma_ascii_utf8_len(s: Seq<char>)
    requires
        forall|i: int| 0 <= i < s.len() ==> (#[trigger] s[i] as u32) < 128,
    ensures
        utf8_len(s) == s.len(),
    decreases s.len(),
{
    if s.len() > 0 {
        assert forall|i: int| 0 <= i < s.drop_last().len() implies (#[trigger] s.drop_last()[i] as u32) < 128 by {
            assert(s.drop_last()[i] == s[i]);
        }
        lemma_ascii_utf8_len(s.drop_last());
        assert((s[s.len() - 1] as u32) < 128);
    }
}

pub fn is_hex_like_hash_segment(segment: &[char]) -> (r: bool)
    ensures
        r == spec_is_hex_like(segment@),
{
    let mut i: usize = 0;
    while i < segment.len()
        invariant
            i <= segment@.len(),
            forall|t: int| 0 <= t < i ==> is_ascii_hexdigit(#[trigger] segment@[t]),
        decreases segment@.len() - i,
    {
        let c = segment[i];
        if !(('0' <= c && c <= '9') || ('a' <= c && c <= 'f') || ('A' <= c && c <= 'F')) {
            return false;
        }
        i = i + 1;
    }
    proof {
        assert forall|t: int| 0 <= t < segment@.len() implies (#[trigger] segment@[t] as u32) < 128 by {
            assert(is_ascii_hexdigit(segment@[t]));
        }
        lemma_ascii_utf8_len(segment@);
    }
    segment.len() >= MIN_HEX_SEGMENT_LENGTH
}

/// The segments of `s` between `-` separators, in order (the split of
/// `str::split('-')`).
pub open spec fn dash_segments(s: Seq<char>) -> Seq<Seq<char>>
    decreases s.len(),
{
    if s.len() == 0 {
        seq![Seq::empty()]
    } else {
        let prev = dash_segments(s.drop_last());
        if s.last() == '-' {
            prev.push(Seq::empty())
        } else {
            prev.update(prev.len() - 1, prev.last().push(s.last()))
        }
    }
}

proof fn lemma_dash_segments_nonempty(s: Seq<char>)
    ensures
        dash_segments(s).len() >= 1,
    decreases s.len(),
{
    if s.len() > 0 {
        lemma_dash_segments_nonempty(s.drop_last());
    }
}

pub open spec fn count_ascii_digits(s: Seq<char>) -> nat
    decreases s.len(),
{
    if s.len() == 0 {
        0
    } else {
        count_ascii_digits(s.drop_last()) + if is_ascii_digit(s.last()) { 1nat } else { 0nat }
    }
}

pub open spec fn token_char_ok(c: char) -> bool {
    unicode_alphanumeric(c) || c == '-' || c == '_' || c == ':' || c == '/' || c == '[' || c == ']' || c == '.'
}

/// A class name, id or role value that is stable enough to serve as a
/// selector: 2 to 64 bytes long, holding an alphabetic character, made only
/// of alphanumerics and `-_:/[].`, with fewer than 4 ASCII digits and no
/// hash-like `-` segment.
pub open spec fn spec_is_stable_token(s: Seq<char>) -> bool {
    &&& MIN_SELECTOR_TOKEN_LENGTH <= utf8_len(s) <= MAX_SELECTOR_TOKEN_LENGTH
    &&& exists|i: int| 0 <= i < s.len() && unicode_alphabetic(#[trigger] s[i])
    &&& forall|i: int| 0 <= i < s.len() ==> token_char_ok(#[trigger] s[i])
    &&& count_ascii_digits(s) < MAX_SELECTOR_DIGITS
    &&& forall|i: int| 0 <= i < dash_segments(s).len() ==> !spec_is_hex_like(#[trigger] dash_segments(s)[i])
}

/// Which tokens are stable: exactly those of 2 to 64 bytes that hold an
/// alphabetic character, are made only of alphanumerics and `-`, `_`, `:`,
/// `/`, `[`, `]`, `.` (so `site_nav` and `md:w-1/2` qualify), hold fewer
/// than 4 ASCII digits and have no `-` segment of 8 or more ASCII hex
/// digits.
pub proof fn lemma_stable_token_law(s: Seq<char>)
    ensures
        spec_is_stable_token(s) <==> {
            &&& 2 <= utf8_len(s) <= 64
            &&& exists|i: int| 0 <= i < s.len() && unicode_alphabetic(#[trigger] s[i])
            &&& forall|i: int| 0 <= i < s.len() ==> {
                    let c = #[trigger] s[i];
                    unicode_alphanumeric(c) || c == '-' || c == '_' || c == ':' || c == '/' || c == '['
                        || c == ']' || c == '.'
                }
            &&& count_ascii_digits(s) < 4
            &&& forall|i: int| 0 <= i < dash_segments(s).len() ==> !({
                    let seg = #[trigger] dash_segments(s)[i];
                    utf8_len(seg) >= 8 && forall|j: int| 0 <= j < seg.len() ==>
                        ('0' <= #[trigger] seg[j] <= '9' || 'a' <= seg[j] <= 'f' || 'A' <= seg[j] <= 'F')
                })
        },
{
}

pub fn is_stable_selector_token(value: &str) -> (r: bool)
    ensures
        r == spec_is_stable_token(value@),
{
    let len = byte_len(value);
    if len < MIN_SELECTOR_TOKEN_LENGTH || len > MAX_SELECTOR_TOKEN_LENGTH {
        return false;
    }
    let chars = str_chars(value);
    let n = chars.len();
    // some alphabetic character
    let mut i: usize = 0;
    let mut any_alpha = false;
    while i < n
        invariant
            i <= n == chars@.len(),
            chars@ == value@,
            any_alpha == exists|t: int| 0 <= t < i && unicode_alphabetic(#[trigger] chars@[t]),
        decreases n - i,
    {
        if is_alphabetic(chars[i]) {
            any_alpha = true;
        }
        i = i + 1;
    }
    if !any_alpha {
        return false;
    }
    // allowed characters only
    let mut i: usize = 0;
    while i < n
        invariant
            i <= n == chars@.len(),
            chars@ == value@,
            forall|t: int| 0 <= t < i ==> token_char_ok(#[trigger] chars@[t]),
        decreases n - i,
    {
        let c = chars[i];
        if !(is_alphanumeric(c) || c == '-' || c == '_' || c == ':' || c == '/' || c == '[' || c == ']' || c == '.') {
            return false;
        }
        i = i + 1;
    }
    // ASCII digit count
    let mut i: usize = 0;
    let mut digits: usize = 0;
    while i < n
        invariant
            i <= n == chars@.len(),
            chars@ == value@,
            digits == count_ascii_digits(chars@.take(i as int)),
            digits <= i,
        decreases n - i,
    {
        assert(chars@.take(i + 1).drop_last() == chars@.take(i as int));
        if '0' <= chars[i] && chars[i] <= '9' {
            digits = digits + 1;
        }
        i = i + 1;
    }
    assert(chars@.take(n as int) == chars@);
    if digits >= MAX_SELECTOR_DIGITS {
        return false;
    }
    // hash-like '-' segments
    let mut seg: Vec<char> = Vec::new();
    let mut i: usize = 0;
    let mut found = false;
    let ghost mut done: Seq<Seq<char>> = Seq::empty();
    proof {
        assert(dash_segments(chars@.take(0)) == seq![Seq::<char>::empty()]);
    }
    while i < n
        invariant
            i <= n == chars@.len(),
            chars@ == value@,
            dash_segments(chars@.take(i as int)) == done.push(seg@),
            found == exists|t: int| 0 <= t < done.len() && spec_is_hex_like(#[trigger] done[t]),
        decreases n - i,
    {
        assert(chars@.take(i + 1).drop_last() == chars@.take(i as int));
        let c = chars[i];
        if c == '-' {
            let h = is_hex_like_hash_segment(seg.as_slice());
            proof {
                let old_done = done;
                done = done.push(seg@);
                if h {
                    assert(spec_is_hex_like(done[old_done.len() as int]));
                }
                if found {
                    let t = choose|t: int| 0 <= t < old_done.len() && spec_is_hex_like(#[trigger] old_done[t]);
                    assert(done[t] == old_done[t]);
                }
                assert forall|t: int| 0 <= t < done.len() && spec_is_hex_like(#[trigger] done[t]) implies (found || h) by {
                    if t < old_done.len() {
                        assert(done[t] == old_done[t]);
                    }
                }
            }
            found = found || h;
            seg = Vec::new();
        } else {
            seg.push(c);
        }
        i = i + 1;
    }
    assert(chars@.take(n as int) == chars@);
    let last_hex = is_hex_like_hash_segment(seg.as_slice());
    proof {
        let segs = dash_segments(chars@);
        assert(segs == done.push(seg@));
        if found || last_hex {
            if found {
                let t = choose|t: int| 0 <= t < done.len() && spec_is_hex_like(#[trigger] done[t]);
                assert(segs[t] == done[t]);
            } else {
                assert(segs[done.len() as int] == seg@);
            }
        } else {
            assert forall|t: int| 0 <= t < segs.len() implies !spec_is_hex_like(#[trigger] segs[t]) by {
                if t < done.len() {
                    assert(segs[t] == done[t]);
                }
            }
        }
    }
    !(found || last_hex)
}

} // verus!

verus! {

use crate::html::{Attr, AttrView, attrs_view};
use crate::text::{words, ascii_ws_sep, ascii_words_exec, concat3, str_eq};
use crate::learn::types::strings_view;

/// The value of the first attribute with local name `name`, in any
/// namespace (`Element::id` reads `id` this way).
pub open spec fn attr_any_ns(attrs: Seq<AttrView>, name: Seq<char>) -> Option<Seq<char>>
    decreases attrs.len(),
{
    if attrs.len() == 0 {
        None
    } else if attrs[0].name == name {
        Some(attrs[0].value)
    } else {
        attr_any_ns(attrs.drop_first(), name)
    }
}

/// The value of the attribute `name` in no namespace (`Element::attr`).
pub open spec fn attr_plain(attrs: Seq<AttrView>, name: Seq<char>) -> Option<Seq<char>>
    decreases attrs.len(),
{
    if attrs.len() == 0 {
        None
    } else if attrs[0].plain && attrs[0].name == name {
        Some(attrs[0].value)
    } else {
        attr_plain(attrs.drop_first(), name)
    }
}

/// The class names of an element: the ASCII-whitespace-separated words of
/// its `class` attributes, in order.
pub open spec fn class_tokens(attrs: Seq<AttrView>) -> Seq<Seq<char>>
    decreases attrs.len(),
{
    if attrs.len() == 0 {
        Seq::empty()
    } else {
        class_tokens(attrs.drop_last()) + if attrs.last().name == "class"@ {
            words(attrs.last().value, ascii_ws_sep())
        } else {
            Seq::empty()
        }
    }
}

/// `.class` selectors for the stable class names among `toks`.
pub open spec fn class_selectors(toks: Seq<Seq<char>>) -> Seq<Seq<char>>
    decreases toks.len(),
{
    if toks.len() == 0 {
        Seq::empty()
    } else if spec_is_stable_token(toks.last()) {
        class_selectors(toks.drop_last()).push("."@ + spec_css_escape(toks.last()))
    } else {
        class_selectors(toks.drop_last())
    }
}

/// The selector candidates of an element, in order and with repeats: its
/// id, its classes and its role, where stable.
pub open spec fn candidate_list(attrs: Seq<AttrView>) -> Seq<Seq<char>> {
    let id_part = match attr_any_ns(attrs, "id"@) {
        Some(v) => if spec_is_stable_token(v) { seq!["#"@ + spec_css_escape(v)] } else { Seq::empty() },
        None => Seq::empty(),
    };
    let role_part = match attr_plain(attrs, "role"@) {
        Some(v) => if spec_is_stable_token(v) { seq!["[role=\""@ + v + "\"]"@] } else { Seq::empty() },
        None => Seq::empty(),
    };
    id_part + class_selectors(class_tokens(attrs)) + role_part
}

/// `s` without repeats, keeping first occurrences.
pub open spec fn dedup_seqs(s: Seq<Seq<char>>) -> Seq<Seq<char>>
    decreases s.len(),
{
    if s.len() == 0 {
        Seq::empty()
    } else {
        let prev = dedup_seqs(s.drop_last());
        if prev.contains(s.last()) { prev } else { prev.push(s.last()) }
    }
}

/// The distinct selector candidates of an element.
pub open spec fn spec_selector_candidates(attrs: Seq<AttrView>) -> Seq<Seq<char>> {
    dedup_seqs(candidate_list(attrs))
}

fn find_attr_any_ns(attrs: &Vec<Attr>, name: &str) -> (r: Option<usize>)
    ensures
        match r {
            Some(i) => i < attrs@.len() && attr_any_ns(attrs_view(attrs@), name@) == Some(attrs@[i as int].value@),
            None => attr_any_ns(attrs_view(attrs@), name@) is None,
        },
{
    let ghost av = attrs_view(attrs@);
    let mut i: usize = 0;
    assert(av.skip(0) == av);
    while i < attrs.len()
        invariant
            i <= attrs@.len(),
            av == attrs_view(attrs@),
            attr_any_ns(av, name@) == attr_any_ns(av.skip(i as int), name@),
        decreases attrs@.len() - i,
    {
        assert(av.skip(i as int)[0] == attrs@[i as int]@);
        assert(av.skip(i as int).drop_first() == av.skip(i + 1));
        if str_eq(attrs[i].name.as_str(), name) {
            return Some(i);
        }
        i = i + 1;
    }
    None
}

fn find_attr_plain(attrs: &Vec<Attr>, name: &str) -> (r: Option<usize>)
    ensures
        match r {
            Some(i) => i < attrs@.len() && attr_plain(attrs_view(attrs@), name@) == Some(attrs@[i as int].value@),
            None => attr_plain(attrs_view(attrs@), name@) is None,
        },
{
    let ghost av = attrs_view(attrs@);
    let mut i: usize = 0;
    assert(av.skip(0) == av);
    while i < attrs.len()
        invariant
            i <= attrs@.len(),
            av == attrs_view(attrs@),
            attr_plain(av, name@) == attr_plain(av.skip(i as int), name@),
        decreases attrs@.len() - i,
    {
        assert(av.skip(i as int)[0] == attrs@[i as int]@);
        assert(av.skip(i as int).drop_first() == av.skip(i + 1));
        if attrs[i].plain && str_eq(attrs[i].name.as_str(), name) {
            return Some(i);
        }
        i = i + 1;
    }
    None
}

/// The value of attribute `name` (in no namespace), if present.
pub fn plain_attr_value<'a>(attrs: &'a Vec<Attr>, name: &str) -> (r: Option<&'a String>)
    ensures
        match r {
            Some(v) => attr_plain(attrs_view(attrs@), name@) == Some(v@),
            None => attr_plain(attrs_view(attrs@), name@) is None,
        },
{
    match find_attr_plain(attrs, name) {
        Some(i) => Some(&attrs[i].value),
        None => None,
    }
}

/// Removes repeats, keeping first occurrences.
pub fn dedup_strings(v: Vec<String>) -> (r: Vec<String>)
    ensures
        strings_view(r@) == dedup_seqs(strings_view(v@)),
{
    let mut out: Vec<String> = Vec::new();
    let mut i: usize = 0;
    while i < v.len()
        invariant
            i <= v@.len(),
            strings_view(out@) == dedup_seqs(strings_view(v@).take(i as int)),
        decreases v@.len() - i,
    {
        assert(strings_view(v@).take(i + 1).drop_last() == strings_view(v@).take(i as int));
        assert(strings_view(v@).take(i + 1).last() == v@[i as int]@);
        let mut found = false;
        let mut j: usize = 0;
        while j < out.len()
            invariant
                i < v@.len(),
                j <= out@.len(),
                found == exists|t: int| 0 <= t < j && out@[t]@ == v@[i as int]@,
            decreases out@.len() - j,
        {
            if out[j] == v[i] {
                found = true;
            }
            j = j + 1;
        }
        proof {
            if found {
                let t = choose|t: int| 0 <= t < j && out@[t]@ == v@[i as int]@;
                assert(strings_view(out@)[t] == v@[i as int]@);
            }
            if strings_view(out@).contains(v@[i as int]@) {
                let t = choose|t: int| 0 <= t < strings_view(out@).len() && strings_view(out@)[t] == v@[i as int]@;
                assert(out@[t]@ == v@[i as int]@);
            }
        }
        if !found {
            let ghost ov = strings_view(out@);
            out.push(v[i].clone());
            assert(strings_view(out@) =~= ov.push(v@[i as int]@));
        }
        i = i + 1;
    }
    assert(strings_view(v@).take(i as int) == strings_view(v@));
    out
}

/// The distinct CSS selectors (id, classes, role) that identify an element
/// with these attributes stably.
pub fn selector_candidates(attrs: &Vec<Attr>) -> (r: Vec<String>)
    ensures
        strings_view(r@) == spec_selector_candidates(attrs_view(attrs@)),
{
    let ghost av = attrs_view(attrs@);
    let mut list: Vec<String> = Vec::new();
    match find_attr_any_ns(attrs, "id") {
        Some(i) => {
            let v = attrs[i].value.as_str();
            if is_stable_selector_token(v) {
                let esc = css_escape_identifier(v);
                list.push(concat3("#", esc.as_str(), ""));
                assert("#"@ + spec_css_escape(v@) + ""@ == "#"@ + spec_css_escape(v@)) by {
                    crate::text::lemma_empty_str();
                }
            }
        },
        None => {},
    }
    let ghost id_part = strings_view(list@);
    // class tokens, attribute by attribute
    let mut k: usize = 0;
    while k < attrs.len()
        invariant
            k <= attrs@.len(),
            av == attrs_view(attrs@),
            strings_view(list@) == id_part + class_selectors(class_tokens(av.take(k as int))),
        decreases attrs@.len() - k,
    {
        assert(av.take(k + 1).drop_last() == av.take(k as int));
        assert(av.take(k + 1).last() == attrs@[k as int]@);
        if str_eq(attrs[k].name.as_str(), "class") {
            let chars = crate::text::str_chars(attrs[k].value.as_str());
            let toks = ascii_words_exec(&chars);
            let ghost tv = toks@.map_values(|w: Vec<char>| w@);
            let ghost base = class_tokens(av.take(k as int));
            let mut t: usize = 0;
            while t < toks.len()
                invariant
                    t <= toks@.len(),
                    tv == toks@.map_values(|w: Vec<char>| w@),
                    strings_view(list@) == id_part + class_selectors(base + tv.take(t as int)),
                decreases toks@.len() - t,
            {
                assert((base + tv.take(t + 1)).drop_last() == base + tv.take(t as int));
                assert((base + tv.take(t + 1)).last() == toks@[t as int]@);
                let tok = crate::text::string_from_chars(toks[t].as_slice());
                if is_stable_selector_token(tok.as_str()) {
                    let esc = css_escape_identifier(tok.as_str());
                    let ghost lv = strings_view(list@);
                    list.push(concat3(".", esc.as_str(), ""));
                    proof {
                        crate::text::lemma_empty_str();
                        assert(strings_view(list@) =~= lv.push("."@ + spec_css_escape(tok@)));
                    }
                }
                t = t + 1;
            }
            assert(tv.take(t as int) == tv);
            assert(tv == words(attrs@[k as int].value@, ascii_ws_sep()));
        } else {
            assert(class_tokens(av.take(k + 1)) == class_tokens(av.take(k as int)) + Seq::<Seq<char>>::empty());
        }
        k = k + 1;
    }
    assert(av.take(k as int) == av);
    match find_attr_plain(attrs, "role") {
        Some(i) => {
            let v = attrs[i].value.as_str();
            if is_stable_selector_token(v) {
                let ghost lv = strings_view(list@);
                list.push(concat3("[role=\"", v, "\"]"));
                assert(strings_view(list@) =~= lv.push("[role=\""@ + v@ + "\"]"@));
            }
        },
        None => {},
    }
    proof {
        let cl = candidate_list(av);
        assert(strings_view(list@) =~= cl);
    }
    dedup_strings(list)
}

} // verus!

verus! {

use crate::learn::ranking::{Ranked, RankedView, ranked_view, strictly_ranked, insert_ranked, ranked_texts, lemma_ranked_order};
use crate::learn::types::{SnippetCandidate, spec_best, distinct_usizes, priority_key};

/// Ranking keys of the selectors promoted from snippet candidates: for each
/// candidate seen on at least `min` pages, its preferred promotable selector.
pub open spec fn promoted_keys(cands: Seq<(String, SnippetCandidate)>, min: nat) -> Set<RankedView> {
    Set::new(|k: RankedView| exists|i: int| 0 <= i < cands.len()
        && distinct_usizes(#[trigger] cands[i].1.pages_view()).len() >= min
        && spec_best(cands[i].1.selectors_view(), min) == Some(k.2)
        && k == priority_key(k.2))
}

pub open spec fn keyed_by_priority(s: Seq<Seq<char>>) -> Seq<RankedView> {
    s.map_values(|x: Seq<char>| priority_key(x))
}

/// The selectors promoted from snippet candidates, without repeats, ordered
/// by priority (highest first) and then lexicographically.
pub fn collect_promoted_selectors(
    snippet_candidates: &Vec<(String, SnippetCandidate)>,
    min_shared_pages: usize,
) -> (r: Vec<String>)
    ensures
        strictly_ranked(keyed_by_priority(strings_view(r@))),
        keyed_by_priority(strings_view(r@)).to_set() == promoted_keys(snippet_candidates@, min_shared_pages as nat),
        strings_view(r@) == ranked_texts(promoted_keys(snippet_candidates@, min_shared_pages as nat)),
{
    let ghost cands = snippet_candidates@;
    let ghost min = min_shared_pages as nat;
    let mut v: Vec<Ranked> = Vec::new();
    let mut i: usize = 0;
    while i < snippet_candidates.len()
        invariant
            i <= cands.len(),
            cands == snippet_candidates@,
            min == min_shared_pages as nat,
            strictly_ranked(ranked_view(v@)),
            forall|t: int| 0 <= t < ranked_view(v@).len() ==>
                #[trigger] ranked_view(v@)[t] == priority_key(ranked_view(v@)[t].2),
            ranked_view(v@).to_set() == promoted_keys(cands.take(i as int), min),
        decreases cands.len() - i,
    {
        let c = &snippet_candidates[i].1;
        let ghost before = ranked_view(v@).to_set();
        let ghost mut added: Option<RankedView> = None;
        if c.pages_seen_count() >= min_shared_pages {
            match c.best_promotable_selector(min_shared_pages) {
                Some(b) => {
                    let p = selector_priority(b.as_str());
                    let x = Ranked { major: p as u64, minor: 0, text: b };
                    proof {
                        added = Some(priority_key(x.text@));
                    }
                    let ghost ov = ranked_view(v@);
                    insert_ranked(&mut v, x);
                    proof {
                        assert forall|t: int| 0 <= t < ranked_view(v@).len() implies
                            #[trigger] ranked_view(v@)[t] == priority_key(ranked_view(v@)[t].2) by {
                            assert(ranked_view(v@).to_set().contains(ranked_view(v@)[t]));
                            if ranked_view(v@)[t] != priority_key(x.text@) {
                                assert(ov.to_set().contains(ranked_view(v@)[t]));
                                let q = choose|q: int| 0 <= q < ov.len() && ov[q] == ranked_view(v@)[t];
                            }
                        }
                    }
                },
                None => {},
            }
        }
        proof {
            let ct = cands.take(i + 1);
            assert forall|k: RankedView| #[trigger] promoted_keys(ct, min).contains(k) <==>
                (promoted_keys(cands.take(i as int), min).contains(k) || added == Some(k)) by {
                if promoted_keys(ct, min).contains(k) {
                    let q = choose|q: int| 0 <= q < ct.len()
                        && distinct_usizes(#[trigger] ct[q].1.pages_view()).len() >= min
                        && spec_best(ct[q].1.selectors_view(), min) == Some(k.2)
                        && k == priority_key(k.2);
                    if q < i {
                        assert(cands.take(i as int)[q] == ct[q]);
                    }
                }
                if promoted_keys(cands.take(i as int), min).contains(k) {
                    let q = choose|q: int| 0 <= q < cands.take(i as int).len()
                        && distinct_usizes(#[trigger] cands.take(i as int)[q].1.pages_view()).len() >= min
                        && spec_best(cands.take(i as int)[q].1.selectors_view(), min) == Some(k.2)
                        && k == priority_key(k.2);
                    assert(ct[q] == cands.take(i as int)[q]);
                }
                if added == Some(k) {
                    assert(ct[i as int] == cands[i as int]);
                }
            }
            assert(ranked_view(v@).to_set() =~= promoted_keys(ct, min));
        }
        i = i + 1;
    }
    assert(cands.take(i as int) == cands);
    let mut out: Vec<String> = Vec::new();
    let mut j: usize = 0;
    while j < v.len()
        invariant
            j <= v@.len(),
            out@.len() == j,
            forall|t: int| 0 <= t < j ==> (#[trigger] out@[t])@ == v@[t].text@,
        decreases v@.len() - j,
    {
        out.push(v[j].text.clone());
        j = j + 1;
    }
    proof {
        assert forall|t: int| 0 <= t < v@.len() implies #[trigger] ranked_view(v@)[t] == keyed_by_priority(strings_view(out@))[t] by {
            assert(ranked_view(v@)[t] == priority_key(ranked_view(v@)[t].2));
        }
        assert(keyed_by_priority(strings_view(out@)) =~= ranked_view(v@));
        lemma_ranked_order(ranked_view(v@), promoted_keys(cands, min));
        assert(ranked_view(v@).map_values(|k: RankedView| k.2) =~= strings_view(out@));
    }
    out
}

/// The ranked selectors followed by the promoted ones, without repeats.
pub fn merge_ranked_and_promoted_selectors(
    ranked_selectors: Vec<String>,
    promoted_selectors: Vec<String>,
) -> (r: Vec<String>)
    ensures
        strings_view(r@) == dedup_seqs(strings_view(ranked_selectors@) + strings_view(promoted_selectors@)),
{
    let mut all = ranked_selectors;
    let mut p = promoted_selectors;
    let ghost a = strings_view(all@);
    let ghost b = strings_view(p@);
    all.append(&mut p);
    assert(strings_view(all@) =~= a + b);
    dedup_strings(all)
}

} // verus!

verus! {

/// `dedup_seqs` leaves no repeats.
pub proof fn lemma_dedup_distinct(s: Seq<Seq<char>>)
    ensures
        forall|i: int, j: int| 0 <= i < j < dedup_seqs(s).len() ==> dedup_seqs(s)[i] != dedup_seqs(s)[j],
    decreases s.len(),
{
    if s.len() > 0 {
        lemma_dedup_distinct(s.drop_last());
        let prev = dedup_seqs(s.drop_last());
        if !prev.contains(s.last()) {
            assert forall|i: int, j: int| 0 <= i < j < dedup_seqs(s).len() implies dedup_seqs(s)[i] != dedup_seqs(s)[j] by {
                if j == prev.len() {
                    if dedup_seqs(s)[i] == dedup_seqs(s)[j] {
                        assert(prev[i] == s.last());
                    }
                } else {
                    assert(dedup_seqs(s)[i] == prev[i] && dedup_seqs(s)[j] == prev[j]);
                }
            }
        }
    }
}

} // verus!
