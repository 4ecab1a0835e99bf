//! Options that control how the AST is rendered to HTML.

use vstd::prelude::*;

verus! {

/// Options that control how the AST is rendered to HTML.
#[derive(Debug, Clone, PartialEq, Eq)]
pub struct RenderOptions {
    /// Emit only the body content (no `<!DOCTYPE>`, `<html>`, `<head>` or
    /// `<body>` wrapper); otherwise a full HTML document.  Default: `true`.
    pub fragment: bool,
    /// Include `<meta charset="utf-8">` in the head (full documents only).
    /// Default: `true`.
    pub charset: bool,
    /// Include the viewport `<meta>` tag in the head (full documents only).
    /// Default: `true`.
    pub viewport: bool,
    /// Optional `<title>` for the head (full documents only).
    pub title: Option<String>,
    /// Optional CSS classes for `<body>` (full documents only).
    pub body_class: Option<String>,
    /// Optional inline CSS for a `<style>` tag in the head.
    pub style: Option<String>,
}

/// The default options: fragment mode, charset and viewport on, nothing
/// else.
pub open spec fn default_render_options() -> RenderOptions {
    RenderOptions { fragment: true, charset: true, viewport: true, title: None, body_class: None, style: None }
}

impl Default for RenderOptions {
    fn default() -> (r: Self)
        ensures
            r == default_render_options(),
    {
        RenderOptions { fragment: true, charset: true, viewport: true, title: None, body_class: None, style: None }
    }
}

impl vstd::std_specs::convert::FromSpecImpl<bool> for RenderOptions {
    open spec fn obeys_from_spec() -> bool {
        true
    }

    open spec fn from_spec(v: bool) -> RenderOptions {
        RenderOptions { fragment: v, ..default_render_options() }
    }
}

impl From<bool> for RenderOptions {
    /// The default options with `fragment` set as given.
    fn from(fragment: bool) -> (r: Self)
        ensures
            r == (RenderOptions { fragment, ..default_render_options() }),
    {
        RenderOptions { fragment, charset: true, viewport: true, title: None, body_class: None, style: None }
    }
}

} // verus!
