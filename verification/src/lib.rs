//! Statute note builder: turns fetched statute bodies into cross-linked
//! Markdown notes, resolving references through a learned name dictionary
//! and a bounded breadth-first crawl.

pub mod text;
pub mod sanitize;
pub mod normalize;
pub mod candidate;
pub mod dictionary;
pub mod lawtext;
pub mod extract;
pub mod linkify;
pub mod unresolved;
pub mod crawl;
pub mod note;
