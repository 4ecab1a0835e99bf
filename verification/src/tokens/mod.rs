//! AST node types: source spans, Kramdown attributes, blocks and inlines.

pub mod attrs;
pub mod span;
pub mod token;

pub use attrs::Attributes;
