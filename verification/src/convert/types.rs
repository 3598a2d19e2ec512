//! Options and result of a conversion.

use vstd::prelude::*;
use crate::convert::parser::LinkValue;
use crate::learn::types::Removals;

verus! {

/// Configuration for HTML-to-Markdown conversion.
pub struct ConvertOptions {
    /// Boilerplate removals learned from a set of pages; applied before conversion.
    pub removals: Option<Removals>,
    /// CSS selectors whose matching elements are removed before conversion.
    pub css_selectors_to_remove: Vec<String>,
    /// CSS selectors that identify the main content root (first match wins).
    pub content_selectors: Vec<String>,
    /// Link visible-text patterns whose matching `<a>`/`<button>` elements are removed.
    pub link_text_content_to_remove: Vec<String>,
    /// Link href prefixes whose matching elements are removed (e.g. `"javascript:"`).
    pub link_hrefs_to_remove: Vec<String>,
    /// `<link rel="...">` tokens to exclude from the extracted `link` map.
    pub link_rel_tokens_to_remove: Vec<String>,
    /// Use text-density scoring to locate the main content element.
    pub use_text_density_filter: bool,
}

impl Default for ConvertOptions {
    fn default() -> (r: Self)
        ensures
            r.removals is None,
            r.css_selectors_to_remove@.len() == 0,
            r.content_selectors@.len() == 0,
            r.link_text_content_to_remove@.len() == 0,
            r.link_hrefs_to_remove@.len() == 0,
            r.link_rel_tokens_to_remove@.len() == 0,
            !r.use_text_density_filter,
    {
        ConvertOptions {
            removals: None,
            css_selectors_to_remove: Vec::new(),
            content_selectors: Vec::new(),
            link_text_content_to_remove: Vec::new(),
            link_hrefs_to_remove: Vec::new(),
            link_rel_tokens_to_remove: Vec::new(),
            use_text_density_filter: false,
        }
    }
}

/// The result of converting a single HTML page.
pub struct ConvertResult {
    /// Page title from `<title>`.
    pub title: Option<String>,
    /// `<meta name/property>` contents, first occurrence of each key.
    pub meta: Vec<(String, String)>,
    /// `<link rel>` map.
    pub link: Vec<(String, LinkValue)>,
    /// Cleaned Markdown content.
    pub content: String,
    /// Canonical URL from `<link rel="canonical">`.
    pub canonical_url: Option<String>,
    /// Language code from `<html lang="...">`.
    pub lang: Option<String>,
}

} // verus!
