//! Compile-time internationalisation: the decisions behind the `locale!`
//! module generator, and the behaviour of the module it generates.

pub mod chars;
pub mod document;
pub mod fallback;
pub mod input;
pub mod laws;
pub mod locale;
pub mod naming;
pub mod order;
pub mod plan;
pub mod render;
pub mod runtime;
pub mod scan;
pub mod text;
pub mod trie;
