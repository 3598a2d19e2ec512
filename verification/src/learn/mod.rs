//! Cross-page boilerplate learning.

pub mod fingerprint;
pub mod selectors;
pub mod types;
pub mod ranking;
pub mod collect;
pub mod snippets;
pub mod bfs;
pub mod finish;
pub mod order;
pub mod pipeline;
pub mod apply;
