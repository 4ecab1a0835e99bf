//! AST node types: the [`Block`] and [`Inline`] enums and the structs that
//! support them (tables, lists, link reference definitions).

use super::attrs::Attributes;
use super::span::Span;
use vstd::prelude::*;

verus! {

/// Block-level nodes.
#[derive(Debug, PartialEq, Eq)]
pub enum Block {
    /// `# Heading` through `###### Heading`.
    Heading {
        /// Heading level (1–6).
        level: u8,
        /// Inline content of the heading.
        children: Vec<Inline>,
        /// Source span.
        pos: Span,
        /// Optional Kramdown attributes.
        attrs: Option<Attributes>,
    },
    /// Plain paragraph text.
    Paragraph {
        /// Inline content of the paragraph.
        children: Vec<Inline>,
        /// Source span.
        pos: Span,
        /// Optional Kramdown attributes.
        attrs: Option<Attributes>,
    },
    /// Fenced or indented code block.
    CodeBlock {
        /// Language hint from the info string.
        lang: Option<String>,
        /// The raw code content.
        code: String,
        /// Source span.
        pos: Span,
        /// Optional Kramdown attributes.
        attrs: Option<Attributes>,
    },
    /// A block quote (`> ...`).  Children are re-parsed as a sub-document.
    BlockQuote {
        /// Nested block content inside the quote.
        children: Vec<Block>,
        /// Source span.
        pos: Span,
        /// Optional Kramdown attributes.
        attrs: Option<Attributes>,
    },
    /// An ordered (`1.`) or unordered (`-`, `*`, `+`) list.
    List {
        /// `true` for ordered lists.
        ordered: bool,
        /// The list items.
        items: Vec<ListItem>,
        /// Source span.
        pos: Span,
        /// Optional Kramdown attributes.
        attrs: Option<Attributes>,
    },
    /// A thematic break (`---`, `***`, or `___`).
    ThematicBreak {
        /// Source span.
        pos: Span,
    },
    /// A raw HTML block.
    HtmlBlock {
        /// The raw HTML content.
        html: String,
        /// Source span.
        pos: Span,
        /// Optional Kramdown attributes.
        attrs: Option<Attributes>,
    },
    /// A GFM table.
    Table {
        /// The table structure.
        table: Table,
        /// Source span.
        pos: Span,
        /// Optional Kramdown attributes.
        attrs: Option<Attributes>,
    },
    /// A link reference definition: `[label]: url "title"`.
    LinkReferenceDefinition {
        /// Normalised label.
        label: String,
        /// The destination URL.
        url: String,
        /// Optional link title.
        title: Option<String>,
        /// Source span.
        pos: Span,
    },
    /// An HTML comment block (`<!-- ... -->`).
    Comment {
        /// The comment text (markers stripped).
        value: String,
        /// Source span.
        pos: Span,
    },
}

/// A link reference definition collected at the document level.
#[derive(Debug, Clone, PartialEq, Eq)]
pub struct LinkReferenceDefinition {
    /// Normalised label (lowercased, trimmed).
    pub label: String,
    /// The destination URL.
    pub url: String,
    /// Optional link title.
    pub title: Option<String>,
    /// Source span.
    pub pos: Span,
}

/// A single list item. Contains nested block content.
#[derive(Debug, PartialEq, Eq)]
pub struct ListItem {
    /// Nested block content of the item.
    pub children: Vec<Block>,
    /// GFM task-list state.
    pub task: Option<TaskState>,
    /// Span of the item in the sub-document of its enclosing list.
    pub pos: Span,
}

/// GFM task-list checkbox state.
#[derive(Debug, Clone, Copy, PartialEq, Eq)]
pub enum TaskState {
    /// `[ ]`
    Unchecked,
    /// `[x]` / `[X]`
    Checked,
}

/// A GFM table.
#[derive(Debug, Clone, PartialEq, Eq)]
pub struct Table {
    /// The header row.
    pub header: TableRow,
    /// Body rows.
    pub rows: Vec<TableRow>,
    /// Column alignment specifications.
    pub alignments: Vec<TableCellAlignment>,
}

/// A single table row.
#[derive(Debug, Clone, PartialEq, Eq)]
pub struct TableRow {
    /// The cells in this row.
    pub cells: Vec<TableCell>,
}

/// A single table cell.
#[derive(Debug, Clone, PartialEq, Eq)]
pub struct TableCell {
    /// Inline content of the cell.
    pub children: Vec<Inline>,
}

/// Column alignment for table cells.
#[derive(Debug, Clone, Copy, PartialEq, Eq)]
pub enum TableCellAlignment {
    /// `---`
    Default,
    /// `:---`
    Left,
    /// `:---:`
    Center,
    /// `---:`
    Right,
}

impl Default for TableCellAlignment {
    fn default() -> (r: Self)
        ensures
            r == TableCellAlignment::Default,
    {
        TableCellAlignment::Default
    }
}

/// Inline-level nodes.
#[derive(Debug, PartialEq, Eq)]
pub enum Inline {
    /// Plain text content.
    Text {
        /// The text value.
        value: String,
        /// Source span.
        pos: Span,
    },
    /// Emphasis (`*italic*` / `**bold**`).
    Emphasis {
        /// Emphasis level.
        level: EmphasisLevel,
        /// Nested inline content.
        children: Vec<Inline>,
        /// Source span.
        pos: Span,
    },
    /// Inline code.
    Code {
        /// The code text.
        code: String,
        /// Source span.
        pos: Span,
    },
    /// Raw inline HTML.
    HtmlInline {
        /// The raw HTML string.
        html: String,
        /// Source span.
        pos: Span,
    },
    /// GFM strikethrough: `~~text~~`.
    Strikethrough {
        /// Nested inline content.
        children: Vec<Inline>,
        /// Source span.
        pos: Span,
    },
    /// A hard line break.
    HardBreak {
        /// Source span.
        pos: Span,
    },
    /// A soft line break.
    SoftBreak {
        /// Source span.
        pos: Span,
    },
    /// An inline image: `![alt](url)`.
    Image {
        /// Alternative text.
        alt: String,
        /// Image URL.
        url: String,
        /// Optional title.
        title: Option<String>,
        /// Source span.
        pos: Span,
    },
    /// An inline link: `[text](url)`.
    Link {
        /// Link text.
        text: Vec<Inline>,
        /// Destination URL.
        url: String,
        /// Optional link title.
        title: Option<String>,
        /// `true` for a GFM autolink (bare URL).
        autolink: bool,
        /// Source span.
        pos: Span,
    },
    /// A reference-style link resolved from the link reference definitions.
    LinkReference {
        /// Link text.
        text: Vec<Inline>,
        /// Normalised label used to look up the reference.
        label: String,
        /// Resolved destination URL.
        url: String,
        /// Optional resolved title.
        title: Option<String>,
        /// Source span.
        pos: Span,
    },
}

/// Emphasis strength.
#[derive(Debug, Clone, Copy, PartialEq, Eq)]
pub enum EmphasisLevel {
    /// `*italic*` / `_italic_`
    Italic,
    /// `**bold**` / `__bold__`
    Bold,
}

impl Block {
    /// The source span of the block.
    pub open spec fn span(self) -> Span {
        match self {
            Block::Heading { pos, .. } => pos,
            Block::Paragraph { pos, .. } => pos,
            Block::CodeBlock { pos, .. } => pos,
            Block::BlockQuote { pos, .. } => pos,
            Block::List { pos, .. } => pos,
            Block::ThematicBreak { pos } => pos,
            Block::HtmlBlock { pos, .. } => pos,
            Block::Table { pos, .. } => pos,
            Block::LinkReferenceDefinition { pos, .. } => pos,
            Block::Comment { pos, .. } => pos,
        }
    }
}

impl Inline {
    /// The source span of the inline node.
    pub open spec fn span(self) -> Span {
        match self {
            Inline::Text { pos, .. } => pos,
            Inline::Emphasis { pos, .. } => pos,
            Inline::Code { pos, .. } => pos,
            Inline::HtmlInline { pos, .. } => pos,
            Inline::Strikethrough { pos, .. } => pos,
            Inline::HardBreak { pos } => pos,
            Inline::SoftBreak { pos } => pos,
            Inline::Image { pos, .. } => pos,
            Inline::Link { pos, .. } => pos,
            Inline::LinkReference { pos, .. } => pos,
        }
    }
}


fn clone_title(t: &Option<String>) -> (r: Option<String>)
    ensures
        r == *t,
{
    match t {
        Some(x) => Some(x.clone()),
        None => None,
    }
}

impl Clone for Inline {
    /// A copy of the node and everything nested in it.
    fn clone(&self) -> (r: Self)
        decreases self, 1nat,
    {
        match self {
            Inline::Text { value, pos } => {
                Inline::Text { value: value.clone(), pos: *pos }
            },
            Inline::Emphasis { level, children, pos } => {
                let c = clone_inlines(children);
                Inline::Emphasis { level: *level, children: c, pos: *pos }
            },
            Inline::Code { code, pos } => Inline::Code { code: code.clone(), pos: *pos },
            Inline::HtmlInline { html, pos } => Inline::HtmlInline { html: html.clone(), pos: *pos },
            Inline::Strikethrough { children, pos } => {
                let c = clone_inlines(children);
                Inline::Strikethrough { children: c, pos: *pos }
            },
            Inline::HardBreak { pos } => Inline::HardBreak { pos: *pos },
            Inline::SoftBreak { pos } => Inline::SoftBreak { pos: *pos },
            Inline::Image { alt, url, title, pos } => Inline::Image {
                alt: alt.clone(),
                url: url.clone(),
                title: clone_title(title),
                pos: *pos,
            },
            Inline::Link { text, url, title, autolink, pos } => {
                let c = clone_inlines(text);
                Inline::Link { text: c, url: url.clone(), title: clone_title(title), autolink: *autolink, pos: *pos }
            },
            Inline::LinkReference { text, label, url, title, pos } => {
                let c = clone_inlines(text);
                Inline::LinkReference {
                    text: c,
                    label: label.clone(),
                    url: url.clone(),
                    title: clone_title(title),
                    pos: *pos,
                }
            },
        }
    }
}

/// A copy of a list of inline nodes.
fn clone_inlines(v: &Vec<Inline>) -> (r: Vec<Inline>)
    ensures
        r@.len() == v@.len(),
    decreases v, 0nat,
{
    let mut r: Vec<Inline> = Vec::new();
    let mut i: usize = 0;
    while i < v.len()
        invariant
            i <= v.len(),
            r@.len() == i,
        decreases v.len() - i,
    {
        proof {
            assert(decreases_to!(v => v@[i as int]));
        }
        let x = v[i].clone();
        r.push(x);
        i = i + 1;
    }
    r
}


impl Clone for Block {
    /// A copy of the block and everything nested in it.
    fn clone(&self) -> (r: Self)
        decreases self, 1nat,
    {
        match self {
            Block::Heading { level, children, pos, attrs } => {
                let c = clone_inlines(children);
                Block::Heading { level: *level, children: c, pos: *pos, attrs: attrs.clone() }
            },
            Block::Paragraph { children, pos, attrs } => {
                let c = clone_inlines(children);
                Block::Paragraph { children: c, pos: *pos, attrs: attrs.clone() }
            },
            Block::CodeBlock { lang, code, pos, attrs } => Block::CodeBlock {
                lang: clone_title(lang),
                code: code.clone(),
                pos: *pos,
                attrs: attrs.clone(),
            },
            Block::BlockQuote { children, pos, attrs } => {
                let c = clone_blocks(children);
                Block::BlockQuote { children: c, pos: *pos, attrs: attrs.clone() }
            },
            Block::List { ordered, items, pos, attrs } => {
                let c = clone_items(items);
                Block::List { ordered: *ordered, items: c, pos: *pos, attrs: attrs.clone() }
            },
            Block::ThematicBreak { pos } => Block::ThematicBreak { pos: *pos },
            Block::HtmlBlock { html, pos, attrs } => Block::HtmlBlock {
                html: html.clone(),
                pos: *pos,
                attrs: attrs.clone(),
            },
            Block::Table { table, pos, attrs } => Block::Table { table: table.clone(), pos: *pos, attrs: attrs.clone() },
            Block::LinkReferenceDefinition { label, url, title, pos } => Block::LinkReferenceDefinition {
                label: label.clone(),
                url: url.clone(),
                title: clone_title(title),
                pos: *pos,
            },
            Block::Comment { value, pos } => Block::Comment { value: value.clone(), pos: *pos },
        }
    }
}

impl Clone for ListItem {
    /// A copy of the item and the blocks in it.
    fn clone(&self) -> (r: Self)
        decreases self, 1nat,
    {
        let c = clone_blocks(&self.children);
        ListItem { children: c, task: self.task, pos: self.pos }
    }
}

/// A copy of a list of blocks.
fn clone_blocks(v: &Vec<Block>) -> (r: Vec<Block>)
    ensures
        r@.len() == v@.len(),
    decreases v, 0nat,
{
    let mut r: Vec<Block> = Vec::new();
    let mut i: usize = 0;
    while i < v.len()
        invariant
            i <= v.len(),
            r@.len() == i,
        decreases v.len() - i,
    {
        proof {
            assert(decreases_to!(v => v@[i as int]));
        }
        let x = v[i].clone();
        r.push(x);
        i = i + 1;
    }
    r
}

/// A copy of a list of list items.
fn clone_items(v: &Vec<ListItem>) -> (r: Vec<ListItem>)
    ensures
        r@.len() == v@.len(),
    decreases v, 0nat,
{
    let mut r: Vec<ListItem> = Vec::new();
    let mut i: usize = 0;
    while i < v.len()
        invariant
            i <= v.len(),
            r@.len() == i,
        decreases v.len() - i,
    {
        proof {
            assert(decreases_to!(v => v@[i as int]));
        }
        let x = v[i].clone();
        r.push(x);
        i = i + 1;
    }
    r
}

} // verus!
