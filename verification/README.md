# boilerstrip

Learns a site's boilerplate (navigation, footers, cookie banners, legal
notices) from several pages of the site, and converts HTML to Markdown with
that boilerplate stripped. The library is written in Verus: each function
states what it returns in its contract, and Verus proves it.

## Layout

- `src/text.rs`, `src/html.rs`, `src/patterns.rs`: strings and characters,
  the parsed HTML tree (`scraper`, `ego-tree`) and regular expressions
  (`regex`), each outside call behind a small trusted wrapper.
- `src/dom.rs`: a plain model of a parsed tree (node kinds and children) that
  the rest of the library reads.
- `src/learn/`: the learning pipeline (selector statistics, breadth-first
  snippet search, ranking) and the application of learned removals.
- `src/convert/`: streaming removal (`lol_html`), metadata extraction, link
  filtering, content-root selection, text-density scores and the Markdown
  writer.
- `app/`: floating-point selector scoring, serde forms of the library's
  types and batch conversion with `rayon`.
- `tests/`: tests of the library from the outside.
