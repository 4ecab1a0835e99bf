//! A Markdown toolchain: a lossless AST parser with source spans, GFM
//! extensions and Kramdown block attributes, a visitor API, YAML front-matter
//! splitting, and an HTML renderer.

pub mod files;
pub mod frontmatter;
pub mod html;
pub mod options;
pub mod parsers;
pub mod processor;
pub mod text;
pub mod tokens;

pub use options::AstOptions;
pub use parsers::visitor::{visit_document_mut, AstVisitor, InlineVisitControl, VisitControl};
pub use parsers::{md_to_ast, Document};
pub use processor::PeisarAst;
pub use tokens::span::{Position, Span};
pub use tokens::token;
pub use tokens::token::LinkReferenceDefinition;
pub use tokens::Attributes;
