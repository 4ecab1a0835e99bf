//! Parser configuration options.

use vstd::prelude::*;

verus! {

/// Options that control how Markdown is parsed.
///
/// Both GFM and Kramdown extensions are enabled by default.
#[derive(Debug, Clone, PartialEq, Eq)]
pub struct AstOptions {
    /// Enable GitHub Flavored Markdown (tables, strikethrough, task lists,
    /// autolinks).  Default: `true`.
    pub gfm: bool,
    /// Enable Kramdown-style block attributes (`{:#id .class key="val"}`).
    /// Default: `true`.
    pub kramdown: bool,
    /// Optional file name to attach to the parsed document.
    pub file_name: Option<String>,
}

impl Default for AstOptions {
    fn default() -> (r: Self)
        ensures
            r.gfm,
            r.kramdown,
            r.file_name is None,
    {
        AstOptions { gfm: true, kramdown: true, file_name: None }
    }
}

} // verus!
