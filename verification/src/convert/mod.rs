//! HTML-to-Markdown conversion: boilerplate is stripped, metadata read,
//! links filtered, the content root located and its Markdown emitted.

pub mod selector;
pub mod filter;
pub mod density;
pub mod parser;
pub mod markdown;
pub mod strip;
pub mod types;

use vstd::prelude::*;
use crate::convert::filter::{apply_text_density_filter, best_scoring, density_candidates, filter_links_inplace, link_flags};
use crate::convert::markdown::{element_to_markdown, spec_element_to_markdown, TreeView};
use crate::convert::parser::{
    custom_rel_tokens, extract_canonical_url, extract_lang, extract_link_tags, extract_meta_tags,
    extract_title, links_fold, links_view, meta_fold, pairs_view, spec_canonical, spec_lang, spec_title,
};
use crate::convert::selector::{select_content_root, spec_content_root};
use crate::convert::strip::{lol_removed, lol_valid, script_style, string_from_utf8_lossy, strip_elements, utf8_lossy};
use crate::convert::types::{ConvertOptions, ConvertResult};
use crate::dom::{flagged_ids, load_model};
use crate::html::{html_node_children, html_node_kinds, parse_document};
use crate::learn::apply::{apply_html_snippet_removals, spec_snippet_removal};
use crate::learn::types::strings_view;

verus! {

/// The selectors stripped before parsing: the learned ones, then the
/// caller's.
pub open spec fn strip_selectors(o: ConvertOptions) -> Seq<Seq<char>> {
    (match o.removals { Some(r) => strings_view(r.css_selectors_to_remove@), None => Seq::empty() })
        + strings_view(o.css_selectors_to_remove@)
}

/// The page after the strip phase: scripts, styles and the stripped
/// selectors removed, then the learned snippets.
pub open spec fn spec_working_html(html: Seq<char>, o: ConvertOptions) -> Seq<char> {
    let stripped = utf8_lossy(lol_removed(html, lol_valid(seq![script_style()] + strip_selectors(o))));
    match o.removals {
        Some(r) => if r.html_to_remove@.len() > 0 { spec_snippet_removal(stripped, strings_view(r.html_to_remove@)) } else { stripped },
        None => stripped,
    }
}

/// The nodes removed by link filtering.
pub open spec fn removed_links(w: Seq<char>, o: ConvertOptions) -> Seq<usize> {
    let kinds = html_node_kinds(w, false);
    flagged_ids(link_flags(kinds, html_node_children(w, false, Seq::empty()),
        strings_view(o.link_text_content_to_remove@), strings_view(o.link_hrefs_to_remove@)), kinds.len() as int)
}

/// The content root: by text density when asked, else by selectors and
/// semantic elements.
pub open spec fn content_root(w: Seq<char>, o: ConvertOptions) -> Option<usize> {
    let kinds = html_node_kinds(w, false);
    let removed = removed_links(w, o);
    let ch = html_node_children(w, false, removed);
    if o.use_text_density_filter {
        best_scoring(kinds, ch, density_candidates(kinds, ch))
    } else {
        spec_content_root(w, false, removed,
            if o.content_selectors@.len() == 0 { None } else { Some(strings_view(o.content_selectors@)) })
    }
}

pub open spec fn opt_view(o: Option<String>) -> Option<Seq<char>> {
    match o { None => None, Some(s) => Some(s@) }
}

/// Convert raw HTML into Markdown with extracted metadata.
pub fn convert(html: &str, options: &ConvertOptions) -> (r: ConvertResult)
    ensures
        ({
            let w = spec_working_html(html@, *options);
            let kinds = html_node_kinds(w, false);
            let ch0 = html_node_children(w, false, Seq::empty());
            &&& opt_view(r.title) == spec_title(kinds, ch0)
            &&& pairs_view(r.meta@) == meta_fold(kinds, ch0, kinds.len() as int)
            &&& links_view(r.link@) == links_fold(kinds, ch0, kinds.len() as int, custom_rel_tokens(
                    if options.link_rel_tokens_to_remove@.len() == 0 { None }
                    else { Some(strings_view(options.link_rel_tokens_to_remove@)) }))
            &&& opt_view(r.canonical_url) == spec_canonical(w, false, Seq::empty())
            &&& opt_view(r.lang) == spec_lang(kinds, ch0)
            &&& r.content@ == match content_root(w, *options) {
                    Some(root) => spec_element_to_markdown(
                        TreeView { kinds, ch: html_node_children(w, false, removed_links(w, *options)) }, root as int),
                    None => Seq::empty(),
                }
        }),
{
    let mut remove_selectors: Vec<String> = Vec::new();
    match &options.removals {
        Some(removals) => {
            let mut i: usize = 0;
            while i < removals.css_selectors_to_remove.len()
                invariant
                    i <= removals.css_selectors_to_remove@.len(),
                    strings_view(remove_selectors@) == strings_view(removals.css_selectors_to_remove@).take(i as int),
                decreases removals.css_selectors_to_remove@.len() - i,
            {
                let ghost before = strings_view(remove_selectors@);
                remove_selectors.push(removals.css_selectors_to_remove[i].clone());
                assert(strings_view(remove_selectors@) =~= before.push(removals.css_selectors_to_remove@[i as int]@));
                assert(strings_view(removals.css_selectors_to_remove@).take(i + 1)
                    =~= strings_view(removals.css_selectors_to_remove@).take(i as int).push(removals.css_selectors_to_remove@[i as int]@));
                i = i + 1;
            }
            assert(strings_view(removals.css_selectors_to_remove@).take(i as int) == strings_view(removals.css_selectors_to_remove@));
        },
        None => {
            assert(strings_view(remove_selectors@) =~= Seq::<Seq<char>>::empty());
        },
    }
    let ghost base = strings_view(remove_selectors@);
    let mut j: usize = 0;
    while j < options.css_selectors_to_remove.len()
        invariant
            j <= options.css_selectors_to_remove@.len(),
            strings_view(remove_selectors@) == base + strings_view(options.css_selectors_to_remove@).take(j as int),
        decreases options.css_selectors_to_remove@.len() - j,
    {
        let ghost before = strings_view(remove_selectors@);
        remove_selectors.push(options.css_selectors_to_remove[j].clone());
        assert(strings_view(remove_selectors@) =~= before.push(options.css_selectors_to_remove@[j as int]@));
        assert(strings_view(options.css_selectors_to_remove@).take(j + 1)
            =~= strings_view(options.css_selectors_to_remove@).take(j as int).push(options.css_selectors_to_remove@[j as int]@));
        j = j + 1;
    }
    assert(strings_view(options.css_selectors_to_remove@).take(j as int) == strings_view(options.css_selectors_to_remove@));
    assert(strings_view(remove_selectors@) == strip_selectors(*options));

    let stripped_bytes = strip_elements(html, &remove_selectors);
    let mut working_html = string_from_utf8_lossy(&stripped_bytes);
    match &options.removals {
        Some(removals) => {
            if removals.html_to_remove.len() > 0 {
                working_html = apply_html_snippet_removals(working_html.as_str(), &removals.html_to_remove);
            }
        },
        None => {},
    }
    let ghost w = working_html@;
    assert(w == spec_working_html(html@, *options));

    let mut document = parse_document(working_html.as_str());
    let title = extract_title(&document);
    let meta = extract_meta_tags(&document);
    let link = if options.link_rel_tokens_to_remove.len() == 0 {
        extract_link_tags(&document, None)
    } else {
        extract_link_tags(&document, Some(&options.link_rel_tokens_to_remove))
    };
    let canonical_url = extract_canonical_url(&document);
    let lang = extract_lang(&document);

    filter_links_inplace(&mut document, &options.link_text_content_to_remove, &options.link_hrefs_to_remove);
    assert(document.removed_nodes() =~= removed_links(w, *options));

    let root = if options.use_text_density_filter {
        apply_text_density_filter(&document)
    } else if options.content_selectors.len() == 0 {
        select_content_root(&document, None)
    } else {
        select_content_root(&document, Some(&options.content_selectors))
    };
    let content = match root {
        Some(r) => {
            let m = load_model(&document);
            if r < m.kinds.len() {
                element_to_markdown(&m, r)
            } else {
                String::new()
            }
        },
        None => String::new(),
    };
    ConvertResult { title, meta, link, content, canonical_url, lang }
}

} // verus!
