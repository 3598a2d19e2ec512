//! Streaming removal of elements by CSS selector, done by `lol_html`.

use vstd::prelude::*;
use std::borrow::Cow;
use lol_html::html_content::Element;
use lol_html::{ElementContentHandlers, HtmlRewriter, Settings};
use crate::learn::types::strings_view;

verus! {

/// Whether `lol_html` parses `selector`.
pub uninterp spec fn lol_selector_parses(selector: Seq<char>) -> bool;

/// What `lol_html`'s rewriter writes for `html` with one handler per
/// selector, each removing the elements that the selector matches (on a
/// rewriting error, such as a parsing ambiguity in strict mode, what it had
/// written before the error).
pub uninterp spec fn lol_removed(html: Seq<char>, selectors: Seq<Seq<char>>) -> Seq<u8>;

/// What `String::from_utf8_lossy` decodes from `bytes`.
pub uninterp spec fn utf8_lossy(bytes: Seq<u8>) -> Seq<char>;

/// `str::parse::<lol_html::Selector>` succeeds.
#[verifier::external_body]
fn lol_parses(selector: &str) -> (r: bool)
    ensures
        r == lol_selector_parses(selector@),
{
    selector.parse::<lol_html::Selector>().is_ok()
}

/// `HtmlRewriter` over `html` with, for each selector, an element handler
/// that removes the element.  A rewriting error leaves what was written so
/// far; `end` is only called after a successful `write`, since the rewriter
/// panics when used again after an error.
#[verifier::external_body]
fn lol_remove(html: &str, selectors: &Vec<String>) -> (r: Vec<u8>)
    requires
        forall|i: int| 0 <= i < selectors@.len() ==> lol_selector_parses(#[trigger] selectors@[i]@),
    ensures
        r@ == lol_removed(html@, strings_view(selectors@)),
{
    let mut output = Vec::with_capacity(html.len());
    let element_content_handlers = selectors.iter().filter_map(|s| s.parse::<lol_html::Selector>().ok())
        .map(|sel| (Cow::Owned(sel), ElementContentHandlers::default()
            .element(|el: &mut Element<'_, '_, _>| { el.remove(); Ok(()) }))).collect();
    let mut rw = HtmlRewriter::new(Settings { element_content_handlers, ..Settings::default() },
        |c: &[u8]| output.extend_from_slice(c));
    if rw.write(html.as_bytes()).is_ok() {
        rw.end().ok();
    }
    output
}

/// `String::from_utf8_lossy`.
#[verifier::external_body]
pub fn string_from_utf8_lossy(bytes: &Vec<u8>) -> (r: String)
    ensures
        r@ == utf8_lossy(bytes@),
{
    String::from_utf8_lossy(bytes).into_owned()
}

/// The selectors of `s` that `lol_html` parses, in order.
pub open spec fn lol_valid(s: Seq<Seq<char>>) -> Seq<Seq<char>>
    decreases s.len(),
{
    if s.len() == 0 {
        Seq::empty()
    } else if lol_selector_parses(s.last()) {
        lol_valid(s.drop_last()).push(s.last())
    } else {
        lol_valid(s.drop_last())
    }
}

/// The selector of the elements that are always removed.
pub open spec fn script_style() -> Seq<char> {
    "script, style"@
}

/// One streaming pass over `html` removing `<script>` and `<style>`
/// elements and the elements of every selector of `remove_selectors` that
/// parses (the others are skipped).
pub fn strip_elements(html: &str, remove_selectors: &Vec<String>) -> (r: Vec<u8>)
    ensures
        r@ == lol_removed(html@, lol_valid(seq![script_style()] + strings_view(remove_selectors@))),
{
    let mut all: Vec<String> = Vec::new();
    all.push("script, style".to_owned());
    let mut i: usize = 0;
    while i < remove_selectors.len()
        invariant
            i <= remove_selectors@.len(),
            strings_view(all@) == seq![script_style()] + strings_view(remove_selectors@).take(i as int),
        decreases remove_selectors@.len() - i,
    {
        let ghost before = strings_view(all@);
        all.push(remove_selectors[i].clone());
        assert(strings_view(all@) =~= before.push(remove_selectors@[i as int]@));
        assert(strings_view(remove_selectors@).take(i + 1) =~= strings_view(remove_selectors@).take(i as int).push(remove_selectors@[i as int]@));
        i = i + 1;
    }
    assert(strings_view(remove_selectors@).take(i as int) == strings_view(remove_selectors@));
    let ghost sv = strings_view(all@);
    let mut valid: Vec<String> = Vec::new();
    let mut j: usize = 0;
    while j < all.len()
        invariant
            j <= all@.len(),
            sv == strings_view(all@),
            strings_view(valid@) == lol_valid(sv.take(j as int)),
            forall|q: int| 0 <= q < valid@.len() ==> lol_selector_parses(#[trigger] valid@[q]@),
        decreases all@.len() - j,
    {
        assert(sv.take(j + 1).drop_last() == sv.take(j as int));
        assert(sv.take(j + 1).last() == all@[j as int]@);
        if lol_parses(all[j].as_str()) {
            let ghost before = strings_view(valid@);
            valid.push(all[j].clone());
            assert(strings_view(valid@) =~= before.push(all@[j as int]@));
        }
        j = j + 1;
    }
    assert(sv.take(j as int) == sv);
    lol_remove(html, &valid)
}

} // verus!
