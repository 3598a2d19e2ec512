//! Learn site boilerplate selectors from a set of HTML pages and convert
//! HTML to clean Markdown with the boilerplate stripped.

pub mod text;
pub mod html;
pub mod patterns;
pub mod dom;
pub mod learn;
pub mod convert;
