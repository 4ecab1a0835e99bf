//! Render a Markdown AST ([`Document`]) into HTML.
//!
//! The rendering is stated as spec functions ([`inline_html`],
//! [`block_html`], [`document_html`]) and each render method appends
//! exactly their value to the renderer's buffer.  Text is HTML-escaped,
//! raw HTML passes through, and Kramdown attributes become HTML attributes
//! of the block's element.

pub mod options;

use crate::parsers::Document;
use crate::text::{push_char, push_str, str_to_chars};
use crate::tokens::attrs::{attr_string, escape_attr_spec, push_escaped_attr, Attributes};
use crate::tokens::token::{
    Block, EmphasisLevel, Inline, ListItem, Table, TableCell, TableCellAlignment, TableRow, TaskState,
};
use options::{default_render_options, RenderOptions};
use vstd::prelude::*;

verus! {

// ---------------------------------------------------------------------------
// Specification of the output
// ---------------------------------------------------------------------------

/// The escape of one character of text.
pub open spec fn esc_text_char(c: char) -> Seq<char> {
    if c == '&' {
        "&amp;"@
    } else if c == '<' {
        "&lt;"@
    } else if c == '>' {
        "&gt;"@
    } else if c == '"' {
        "&quot;"@
    } else if c == '\'' {
        "&#39;"@
    } else {
        seq![c]
    }
}

/// Text with `&`, `<`, `>`, `"`, `'` replaced by their entities.
pub open spec fn esc_text(s: Seq<char>) -> Seq<char>
    decreases s.len(),
{
    if s.len() == 0 {
        Seq::empty()
    } else {
        esc_text(s.drop_last()) + esc_text_char(s.last())
    }
}

/// ` title="..."` for a title, or nothing.
pub open spec fn title_attr(t: Option<String>) -> Seq<char> {
    match t {
        Some(t) => " title=\""@ + esc_text(t@) + "\""@,
        None => Seq::empty(),
    }
}

/// The HTML of an inline node.
pub open spec fn inline_html(i: Inline) -> Seq<char>
    decreases i,
{
    match i {
        Inline::Text { value, .. } => esc_text(value@),
        Inline::Emphasis { level, children, .. } => match level {
            EmphasisLevel::Italic => "<em>"@ + inlines_html(children@) + "</em>"@,
            EmphasisLevel::Bold => "<strong>"@ + inlines_html(children@) + "</strong>"@,
        },
        Inline::Code { code, .. } => "<code>"@ + esc_text(code@) + "</code>"@,
        Inline::HtmlInline { html, .. } => html@,
        Inline::Strikethrough { children, .. } => "<del>"@ + inlines_html(children@) + "</del>"@,
        Inline::HardBreak { .. } => "<br>\n"@,
        Inline::SoftBreak { .. } => "\n"@,
        Inline::Image { alt, url, title, .. } => "<img src=\""@ + escape_attr_spec(url@) + "\" alt=\""@ + esc_text(
            alt@,
        ) + "\""@ + title_attr(title) + ">"@,
        Inline::Link { text, url, title, .. } => "<a href=\""@ + escape_attr_spec(url@) + "\""@ + title_attr(title)
            + ">"@ + inlines_html(text@) + "</a>"@,
        Inline::LinkReference { text, url, title, .. } => "<a href=\""@ + escape_attr_spec(url@) + "\""@
            + title_attr(title) + ">"@ + inlines_html(text@) + "</a>"@,
    }
}

/// The HTML of a sequence of inline nodes.
pub open spec fn inlines_html(s: Seq<Inline>) -> Seq<char>
    decreases s,
{
    if s.len() == 0 {
        Seq::empty()
    } else {
        inlines_html(s.drop_last()) + inline_html(s.last())
    }
}

/// ` attr-string` for attributes whose string is not empty, or nothing.
pub open spec fn attrs_html(a: Option<Attributes>) -> Seq<char> {
    match a {
        Some(x) => if attr_string(x).len() > 0 {
            seq![' '] + attr_string(x)
        } else {
            Seq::empty()
        },
        None => Seq::empty(),
    }
}

/// The decimal digit `d`.
pub open spec fn digit_char(d: nat) -> char {
    (48 + d) as char
}

/// The decimal representation of `n`.
pub open spec fn decimal(n: nat) -> Seq<char>
    decreases n,
{
    if n < 10 {
        seq![digit_char(n)]
    } else {
        decimal(n / 10).push(digit_char(n % 10))
    }
}

/// ` class="language-..."` for a non-empty language, or nothing.
pub open spec fn lang_attr(lang: Option<String>) -> Seq<char> {
    match lang {
        Some(l) => if l@.len() > 0 {
            " class=\"language-"@ + escape_attr_spec(l@) + "\""@
        } else {
            Seq::empty()
        },
        None => Seq::empty(),
    }
}

/// The `style` attribute of a column alignment.
pub open spec fn align_attr(a: Option<TableCellAlignment>) -> Seq<char> {
    match a {
        Some(TableCellAlignment::Center) => " style=\""@ + "text-align: center"@ + "\""@,
        Some(TableCellAlignment::Right) => " style=\""@ + "text-align: right"@ + "\""@,
        _ => Seq::empty(),
    }
}

/// The alignment of column `i`, if given.
pub open spec fn align_at(al: Seq<TableCellAlignment>, i: int) -> Option<TableCellAlignment> {
    if 0 <= i < al.len() {
        Some(al[i])
    } else {
        None
    }
}

/// The cells of a row, each between `open` (plus its alignment) and `close`.
pub open spec fn cells_html(cells: Seq<TableCell>, al: Seq<TableCellAlignment>, open: Seq<char>, close: Seq<char>) -> Seq<
    char,
>
    decreases cells.len(),
{
    if cells.len() == 0 {
        Seq::empty()
    } else {
        let i = cells.len() - 1;
        cells_html(cells.drop_last(), al, open, close) + open + align_attr(align_at(al, i)) + ">"@ + inlines_html(
            cells.last().children@,
        ) + close
    }
}

/// The body rows of a table.
pub open spec fn rows_html(rows: Seq<TableRow>, al: Seq<TableCellAlignment>) -> Seq<char>
    decreases rows.len(),
{
    if rows.len() == 0 {
        Seq::empty()
    } else {
        rows_html(rows.drop_last(), al) + "<tr>\n"@ + cells_html(rows.last().cells@, al, "<td"@, "</td>\n"@)
            + "</tr>\n"@
    }
}

/// The HTML of a table.
pub open spec fn table_html(t: Table, attrs: Option<Attributes>) -> Seq<char> {
    "<table"@ + attrs_html(attrs) + ">\n<thead>\n<tr>\n"@ + cells_html(t.header.cells@, t.alignments@, "<th"@, "</th>\n"@)
        + "</tr>\n</thead>\n<tbody>\n"@ + rows_html(t.rows@, t.alignments@) + "</tbody>\n</table>\n"@
}

/// The HTML of a block.
pub open spec fn block_html(b: Block) -> Seq<char>
    decreases b,
{
    match b {
        Block::Heading { level, children, attrs, .. } => "<h"@ + decimal(level as nat) + attrs_html(attrs) + ">"@
            + inlines_html(children@) + "</h"@ + decimal(level as nat) + ">\n"@,
        Block::Paragraph { children, attrs, .. } => "<p"@ + attrs_html(attrs) + ">"@ + inlines_html(children@)
            + "</p>\n"@,
        Block::CodeBlock { lang, code, attrs, .. } => "<pre><code"@ + lang_attr(lang) + attrs_html(attrs) + ">"@
            + esc_text(code@) + "</code></pre>\n"@,
        Block::BlockQuote { children, attrs, .. } => "<blockquote"@ + attrs_html(attrs) + ">\n"@ + blocks_html(
            children@,
        ) + "</blockquote>\n"@,
        Block::List { ordered, items, attrs, .. } => {
            let tag = if ordered { "ol"@ } else { "ul"@ };
            "<"@ + tag + attrs_html(attrs) + ">\n"@ + items_html(items@) + "</"@ + tag + ">\n"@
        },
        Block::ThematicBreak { .. } => "<hr>\n"@,
        Block::HtmlBlock { html, .. } => if html@.len() > 0 && html@.last() == '\n' {
            html@
        } else {
            html@.push('\n')
        },
        Block::Table { table, attrs, .. } => table_html(table, attrs),
        Block::LinkReferenceDefinition { .. } => Seq::empty(),
        Block::Comment { value, .. } => "<!-- "@ + value@ + " -->\n"@,
    }
}

/// The HTML of a sequence of blocks.
pub open spec fn blocks_html(s: Seq<Block>) -> Seq<char>
    decreases s,
{
    if s.len() == 0 {
        Seq::empty()
    } else {
        blocks_html(s.drop_last()) + block_html(s.last())
    }
}

/// The item holds exactly one paragraph (a tight item).
pub open spec fn tight(item: ListItem) -> bool {
    item.children@.len() == 1 && item.children@[0] is Paragraph
}

/// The opening of a list item, with its task-list markup.
pub open spec fn item_open(task: Option<TaskState>) -> Seq<char> {
    match task {
        Some(t) => "<li"@ + " class=\"task-list-item\""@ + (if t == TaskState::Checked {
            " data-checked=\"true\""@
        } else {
            Seq::empty()
        }) + ">"@ + "<input type=\"checkbox\" class=\"task-list-item-checkbox\""@ + (if t == TaskState::Checked {
            " checked"@
        } else {
            Seq::empty()
        }) + " disabled> "@,
        None => "<li"@ + ">"@,
    }
}

/// The HTML of a list item: a tight item shows its paragraph's inlines
/// without `<p>`.
pub open spec fn item_html(item: ListItem) -> Seq<char>
    decreases item,
{
    item_open(item.task) + (if tight(item) {
        inlines_html(item.children@[0]->Paragraph_children@)
    } else {
        "\n"@ + blocks_html(item.children@)
    }) + "</li>\n"@
}

/// The HTML of a sequence of list items.
pub open spec fn items_html(s: Seq<ListItem>) -> Seq<char>
    decreases s,
{
    if s.len() == 0 {
        Seq::empty()
    } else {
        items_html(s.drop_last()) + item_html(s.last())
    }
}

/// ` class="..."` for the body class, or nothing.
pub open spec fn class_attr(bc: Option<String>) -> Seq<char> {
    match bc {
        Some(c) => " class=\""@ + escape_attr_spec(c@) + "\""@,
        None => Seq::empty(),
    }
}

/// The contents of `<head>`.
pub open spec fn head_html(o: RenderOptions) -> Seq<char> {
    (if o.charset {
        "<meta charset=\"utf-8\">\n"@
    } else {
        Seq::empty()
    }) + (if o.viewport {
        "<meta name=\"viewport\" content=\"width=device-width, initial-scale=1.0\">\n"@
    } else {
        Seq::empty()
    }) + (match o.title {
        Some(t) => "<title>"@ + esc_text(t@) + "</title>\n"@,
        None => Seq::empty(),
    }) + (match o.style {
        Some(st) => "<style>\n"@ + st@ + "\n</style>\n"@,
        None => Seq::empty(),
    })
}

/// The HTML of a document: its blocks, wrapped into a full HTML document
/// unless in fragment mode; the body class goes on `<body>`.
pub open spec fn document_html(doc: Document, o: RenderOptions) -> Seq<char> {
    if o.fragment {
        blocks_html(doc.children@)
    } else {
        "<!DOCTYPE html>\n<html>\n<head>\n"@ + head_html(o) + "</head>\n<body"@
            + class_attr(o.body_class) + ">\n"@ + blocks_html(doc.children@) + "</body>\n</html>\n"@
    }
}

/// The options given, or the defaults.
pub open spec fn options_or_default(o: Option<RenderOptions>) -> RenderOptions {
    match o {
        Some(x) => x,
        None => default_render_options(),
    }
}

// ---------------------------------------------------------------------------
// The renderer
// ---------------------------------------------------------------------------

/// Appends `s` with `&`, `<`, `>`, `"`, `'` escaped.
fn push_escaped_text(out: &mut String, s: &str)
    ensures
        final(out)@ == old(out)@ + esc_text(s@),
{
    let cs = str_to_chars(s);
    let mut i: usize = 0;
    while i < cs.len()
        invariant
            i <= cs@.len(),
            cs@ == s@,
            out@ == old(out)@ + esc_text(cs@.take(i as int)),
        decreases cs@.len() - i,
    {
        let c = cs[i];
        if c == '&' {
            push_str(out, "&amp;");
        } else if c == '<' {
            push_str(out, "&lt;");
        } else if c == '>' {
            push_str(out, "&gt;");
        } else if c == '"' {
            push_str(out, "&quot;");
        } else if c == '\'' {
            push_str(out, "&#39;");
        } else {
            push_char(out, c);
        }
        proof {
            assert(cs@.take(i + 1).drop_last() =~= cs@.take(i as int));
            assert(cs@.take(i + 1).last() == c);
        }
        i = i + 1;
        assert(out@ =~= old(out)@ + esc_text(cs@.take(i as int)));
    }
    assert(cs@.take(cs@.len() as int) =~= cs@);
}

/// The decimal digit `d`.
fn digit(d: u8) -> (c: char)
    requires
        d < 10,
    ensures
        c == digit_char(d as nat),
{
    (48u8 + d) as char
}

/// Appends the decimal representation of `n`.
fn push_decimal(out: &mut String, n: u8)
    ensures
        final(out)@ == old(out)@ + decimal(n as nat),
{
    if n >= 100 {
        push_char(out, digit(n / 100));
        push_char(out, digit((n / 10) % 10));
        push_char(out, digit(n % 10));
        assert(decimal((n / 100) as nat) == seq![digit_char((n / 100) as nat)]);
        assert(decimal((n / 10) as nat) == decimal((n / 100) as nat).push(digit_char(((n / 10) % 10) as nat)));
        assert(decimal(n as nat) == decimal((n / 10) as nat).push(digit_char((n % 10) as nat)));
    } else if n >= 10 {
        push_char(out, digit(n / 10));
        push_char(out, digit(n % 10));
        assert(decimal((n / 10) as nat) == seq![digit_char((n / 10) as nat)]);
        assert(decimal(n as nat) == decimal((n / 10) as nat).push(digit_char((n % 10) as nat)));
    } else {
        push_char(out, digit(n));
    }
    assert(final(out)@ =~= old(out)@ + decimal(n as nat));
}

/// A renderer that turns a [`Document`] into an HTML string: fill its
/// buffer with [`AstToHtml::render_document`], then take it with
/// [`AstToHtml::finish`].
pub struct AstToHtml {
    out: String,
    escape: bool,
    opts: RenderOptions,
}

/// Render a [`Document`] to an HTML string in one call (`None` options:
/// the defaults, fragment mode).
pub fn render_document_html(doc: &Document, opts: Option<RenderOptions>) -> (r: String)
    ensures
        r@ == document_html(*doc, options_or_default(opts)),
{
    let mut r = AstToHtml::new(opts);
    r.render_document(doc);
    r.finish()
}

impl AstToHtml {
    /// The HTML written so far.
    pub closed spec fn output(&self) -> Seq<char> {
        self.out@
    }

    /// The options of the renderer.
    pub closed spec fn options(&self) -> RenderOptions {
        self.opts
    }

    /// The renderer escapes text (every renderer does).
    pub closed spec fn wf(&self) -> bool {
        self.escape
    }

    /// A renderer with the given options (`None`: the defaults).
    pub fn new(opts: Option<RenderOptions>) -> (r: Self)
        ensures
            r.wf(),
            r.output() == Seq::<char>::empty(),
            r.options() == options_or_default(opts),
    {
        let options = match opts {
            Some(o) => o,
            None => RenderOptions::default(),
        };
        AstToHtml { out: String::new(), escape: true, opts: options }
    }

    /// Consume the renderer and return the HTML string.
    pub fn finish(self) -> (r: String)
        ensures
            r@ == self.output(),
    {
        self.out
    }

    /// Render a document and return the HTML (consuming the renderer).
    pub fn render_document_owned(self, doc: &Document) -> (r: String)
        requires
            self.wf(),
        ensures
            r@ == self.output() + document_html(*doc, self.options()),
    {
        let mut me = self;
        me.render_document(doc);
        me.finish()
    }

    /// Append escaped text.
    fn esc(&mut self, text: &str)
        requires
            old(self).wf(),
        ensures
            final(self).wf(),
            final(self).options() == old(self).options(),
            final(self).output() == old(self).output() + esc_text(text@),
    {
        push_escaped_text(&mut self.out, text);
    }

    /// Append a literal string.
    fn lit(&mut self, text: &str)
        ensures
            final(self).wf() == old(self).wf(),
            final(self).options() == old(self).options(),
            final(self).output() == old(self).output() + text@,
    {
        push_str(&mut self.out, text);
    }

    /// Append text escaped for an attribute value.
    fn esc_attr(&mut self, text: &str)
        ensures
            final(self).wf() == old(self).wf(),
            final(self).options() == old(self).options(),
            final(self).output() == old(self).output() + escape_attr_spec(text@),
    {
        push_escaped_attr(&mut self.out, text);
    }

    /// Append a class name or similar value (`&`, `"`, `<`, `>` escaped).
    fn esc_no_quote(&mut self, text: &str)
        ensures
            final(self).wf() == old(self).wf(),
            final(self).options() == old(self).options(),
            final(self).output() == old(self).output() + escape_attr_spec(text@),
    {
        push_escaped_attr(&mut self.out, text);
    }

    /// Append Kramdown attributes as HTML attributes (with a leading space).
    fn emit_attrs(&mut self, attrs: &Option<Attributes>)
        ensures
            final(self).wf() == old(self).wf(),
            final(self).options() == old(self).options(),
            final(self).output() == old(self).output() + attrs_html(*attrs),
    {
        if let Some(a) = attrs {
            let s = a.to_html_attr_string();
            if !s.as_str().is_empty() {
                push_char(&mut self.out, ' ');
                push_str(&mut self.out, s.as_str());
            } else {
                assert(s@.len() == 0);
            }
        }
        assert(final(self).output() =~= old(self).output() + attrs_html(*attrs));
    }

    /// Render an inline node.
    pub fn render_inline(&mut self, inline: &Inline)
        requires
            old(self).wf(),
        ensures
            final(self).wf(),
            final(self).options() == old(self).options(),
            final(self).output() == old(self).output() + inline_html(*inline),
        decreases inline,
    {
        let ghost start = self.output();
        match inline {
            Inline::Text { value, .. } => {
                self.esc(value.as_str());
            },
            Inline::Emphasis { level, children, .. } => {
                match level {
                    EmphasisLevel::Italic => {
                        self.lit("<em>");
                        self.render_inlines(children);
                        self.lit("</em>");
                    },
                    EmphasisLevel::Bold => {
                        self.lit("<strong>");
                        self.render_inlines(children);
                        self.lit("</strong>");
                    },
                }
            },
            Inline::Code { code, .. } => {
                self.lit("<code>");
                self.esc(code.as_str());
                self.lit("</code>");
            },
            Inline::HtmlInline { html, .. } => {
                self.lit(html.as_str());
            },
            Inline::Strikethrough { children, .. } => {
                self.lit("<del>");
                self.render_inlines(children);
                self.lit("</del>");
            },
            Inline::HardBreak { .. } => {
                self.lit("<br>\n");
            },
            Inline::SoftBreak { .. } => {
                self.lit("\n");
            },
            Inline::Image { alt, url, title, .. } => {
                self.lit("<img src=\"");
                self.esc_attr(url.as_str());
                self.lit("\" alt=\"");
                self.esc(alt.as_str());
                self.lit("\"");
                self.title(title);
                self.lit(">");
            },
            Inline::Link { text, url, title, .. } => {
                self.lit("<a href=\"");
                self.esc_attr(url.as_str());
                self.lit("\"");
                self.title(title);
                self.lit(">");
                self.render_inlines(text);
                self.lit("</a>");
            },
            Inline::LinkReference { text, url, title, .. } => {
                self.lit("<a href=\"");
                self.esc_attr(url.as_str());
                self.lit("\"");
                self.title(title);
                self.lit(">");
                self.render_inlines(text);
                self.lit("</a>");
            },
        }
        assert(self.output() =~= start + inline_html(*inline));
    }

    /// Append ` title="..."` for a title.
    fn title(&mut self, title: &Option<String>)
        requires
            old(self).wf(),
        ensures
            final(self).wf(),
            final(self).options() == old(self).options(),
            final(self).output() == old(self).output() + title_attr(*title),
    {
        if let Some(t) = title {
            self.lit(" title=\"");
            self.esc(t.as_str());
            self.lit("\"");
        }
        assert(final(self).output() =~= old(self).output() + title_attr(*title));
    }

    /// Render a sequence of inline nodes.
    fn render_inlines(&mut self, v: &Vec<Inline>)
        requires
            old(self).wf(),
        ensures
            final(self).wf(),
            final(self).options() == old(self).options(),
            final(self).output() == old(self).output() + inlines_html(v@),
        decreases v,
    {
        let ghost start = self.output();
        let mut k: usize = 0;
        assert(v@.take(0) =~= Seq::<Inline>::empty());
        while k < v.len()
            invariant
                k <= v@.len(),
                self.wf(),
                self.options() == old(self).options(),
                start == old(self).output(),
                self.output() == start + inlines_html(v@.take(k as int)),
            decreases v@.len() - k,
        {
            proof {
                assert(decreases_to!(v => v@));
                assert(decreases_to!(v@ => v@[k as int]));
            }
            self.render_inline(&v[k]);
            proof {
                assert(v@.take(k + 1).drop_last() =~= v@.take(k as int));
                assert(v@.take(k + 1).last() == v@[k as int]);
            }
            k += 1;
            assert(self.output() =~= start + inlines_html(v@.take(k as int)));
        }
        assert(v@.take(v@.len() as int) =~= v@);
    }
}

impl AstToHtml {
    /// Render a whole document: its blocks, wrapped into a full HTML
    /// document (head with the optional meta tags, title and style) unless
    /// in fragment mode.
    pub fn render_document(&mut self, doc: &Document)
        requires
            old(self).wf(),
        ensures
            final(self).wf(),
            final(self).options() == old(self).options(),
            final(self).output() == old(self).output() + document_html(*doc, old(self).options()),
    {
        if self.opts.fragment {
            self.render_blocks(&doc.children);
        } else {
            self.render_wrapped(doc);
        }
    }

    /// Render a document wrapped into a full HTML document.
    fn render_wrapped(&mut self, doc: &Document)
        requires
            old(self).wf(),
        ensures
            final(self).wf(),
            final(self).options() == old(self).options(),
            final(self).output() == old(self).output() + "<!DOCTYPE html>\n<html>\n<head>\n"@ + head_html(
                old(self).options(),
            ) + "</head>\n<body"@ + class_attr(
                old(self).options().body_class,
            ) + ">\n"@ + blocks_html(doc.children@) + "</body>\n</html>\n"@,
    {
        let ghost start = self.output();
        let ghost o = self.options();
        self.lit("<!DOCTYPE html>\n<html>\n<head>\n");
        let bc = self.opts.body_class.clone();
        assert(bc == o.body_class);
        self.render_head();
        let ghost p1 = self.output();
        assert(p1 =~= start + "<!DOCTYPE html>\n<html>\n<head>\n"@ + head_html(o));
        self.lit("</head>\n<body");
        self.class(&bc);
        self.lit(">\n");
        self.render_blocks(&doc.children);
        self.lit("</body>\n</html>\n");
        assert(self.output() =~= p1 + "</head>\n<body"@ + class_attr(o.body_class) + ">\n"@ + blocks_html(
            doc.children@,
        ) + "</body>\n</html>\n"@);
    }

    /// Append the contents of `<head>`: the meta tags, title and style that
    /// the options ask for.
    fn render_head(&mut self)
        requires
            old(self).wf(),
        ensures
            final(self).wf(),
            final(self).options() == old(self).options(),
            final(self).output() == old(self).output() + head_html(old(self).options()),
    {
        let ghost h0 = self.output();
        let ghost o = self.options();
        if self.opts.charset {
            self.lit("<meta charset=\"utf-8\">\n");
        }
        if self.opts.viewport {
            self.lit("<meta name=\"viewport\" content=\"width=device-width, initial-scale=1.0\">\n");
        }
        let ghost h1 = self.output();
        self.render_title_style();
        assert(self.output() =~= h0 + head_html(o));
    }

    /// Append the `<title>` and `<style>` that the options ask for.
    fn render_title_style(&mut self)
        requires
            old(self).wf(),
        ensures
            final(self).wf(),
            final(self).options() == old(self).options(),
            final(self).output() == old(self).output() + (match old(self).options().title {
                Some(t) => "<title>"@ + esc_text(t@) + "</title>\n"@,
                None => Seq::empty(),
            }) + (match old(self).options().style {
                Some(st) => "<style>\n"@ + st@ + "\n</style>\n"@,
                None => Seq::empty(),
            }),
    {
        let ghost h0 = self.output();
        let ghost o = self.options();
        let title = self.opts.title.clone();
        if let Some(t) = &title {
            self.lit("<title>");
            self.esc(t.as_str());
            self.lit("</title>\n");
        }
        let ghost h1 = self.output();
        assert(title == o.title);
        assert(h1 =~= h0 + (match o.title {
            Some(t) => "<title>"@ + esc_text(t@) + "</title>\n"@,
            None => Seq::empty(),
        }));
        let style = self.opts.style.clone();
        if let Some(st) = &style {
            self.lit("<style>\n");
            self.lit(st.as_str());
            self.lit("\n</style>\n");
        }
        assert(style == o.style);
        assert(self.output() =~= h1 + (match o.style {
            Some(st) => "<style>\n"@ + st@ + "\n</style>\n"@,
            None => Seq::empty(),
        }));
    }

    /// Append ` class="..."` for a class name.
    fn class(&mut self, bc: &Option<String>)
        requires
            old(self).wf(),
        ensures
            final(self).wf(),
            final(self).options() == old(self).options(),
            final(self).output() == old(self).output() + class_attr(*bc),
    {
        if let Some(c) = bc {
            self.lit(" class=\"");
            self.esc_no_quote(c.as_str());
            self.lit("\"");
        }
        assert(final(self).output() =~= old(self).output() + class_attr(*bc));
    }

    /// Render a block-level node.
    pub fn render_block(&mut self, block: &Block)
        requires
            old(self).wf(),
        ensures
            final(self).wf(),
            final(self).options() == old(self).options(),
            final(self).output() == old(self).output() + block_html(*block),
        decreases block,
    {
        let ghost start = self.output();
        match block {
            Block::Heading { level, children, attrs, .. } => {
                self.render_heading(*level, children, attrs);
            },
            Block::Paragraph { children, attrs, .. } => {
                self.render_paragraph(children, attrs);
            },
            Block::CodeBlock { lang, code, attrs, .. } => {
                self.render_code(lang, code, attrs);
            },
            Block::BlockQuote { children, attrs, .. } => {
                self.lit("<blockquote");
                self.emit_attrs(attrs);
                self.lit(">\n");
                self.render_blocks(children);
                self.lit("</blockquote>\n");
            },
            Block::List { ordered, items, attrs, .. } => {
                let tag = if *ordered { "ol" } else { "ul" };
                self.lit("<");
                self.lit(tag);
                self.emit_attrs(attrs);
                self.lit(">\n");
                self.render_items(items);
                self.lit("</");
                self.lit(tag);
                self.lit(">\n");
            },
            Block::ThematicBreak { .. } => {
                self.lit("<hr>\n");
            },
            Block::HtmlBlock { html, .. } => {
                self.render_html(html);
            },
            Block::Table { table, attrs, .. } => {
                self.render_table(table, attrs);
            },
            Block::LinkReferenceDefinition { .. } => {},
            Block::Comment { value, .. } => {
                self.lit("<!-- ");
                self.lit(value.as_str());
                self.lit(" -->\n");
            },
        }
        assert(self.output() =~= start + block_html(*block));
    }

    /// Render a heading.
    fn render_heading(&mut self, level: u8, children: &Vec<Inline>, attrs: &Option<Attributes>)
        requires
            old(self).wf(),
        ensures
            final(self).wf(),
            final(self).options() == old(self).options(),
            final(self).output() == old(self).output() + "<h"@ + decimal(level as nat) + attrs_html(*attrs) + ">"@
                + inlines_html(children@) + "</h"@ + decimal(level as nat) + ">\n"@,
    {
        let ghost start = self.output();
        self.lit("<h");
        push_decimal(&mut self.out, level);
        self.emit_attrs(attrs);
        self.lit(">");
        self.render_inlines(children);
        self.lit("</h");
        push_decimal(&mut self.out, level);
        self.lit(">\n");
        assert(self.output() =~= start + "<h"@ + decimal(level as nat) + attrs_html(*attrs) + ">"@ + inlines_html(
            children@,
        ) + "</h"@ + decimal(level as nat) + ">\n"@);
    }

    /// Render a paragraph.
    fn render_paragraph(&mut self, children: &Vec<Inline>, attrs: &Option<Attributes>)
        requires
            old(self).wf(),
        ensures
            final(self).wf(),
            final(self).options() == old(self).options(),
            final(self).output() == old(self).output() + "<p"@ + attrs_html(*attrs) + ">"@ + inlines_html(children@)
                + "</p>\n"@,
    {
        let ghost start = self.output();
        self.lit("<p");
        self.emit_attrs(attrs);
        self.lit(">");
        self.render_inlines(children);
        self.lit("</p>\n");
        assert(self.output() =~= start + "<p"@ + attrs_html(*attrs) + ">"@ + inlines_html(children@) + "</p>\n"@);
    }

    /// Render a code block (its text escaped).
    fn render_code(&mut self, lang: &Option<String>, code: &String, attrs: &Option<Attributes>)
        requires
            old(self).wf(),
        ensures
            final(self).wf(),
            final(self).options() == old(self).options(),
            final(self).output() == old(self).output() + "<pre><code"@ + lang_attr(*lang) + attrs_html(*attrs) + ">"@
                + esc_text(code@) + "</code></pre>\n"@,
    {
        let ghost start = self.output();
        self.lit("<pre><code");
        if let Some(l) = lang {
            if !l.as_str().is_empty() {
                self.lit(" class=\"language-");
                self.esc_no_quote(l.as_str());
                self.lit("\"");
            }
        }
        assert(self.output() =~= start + "<pre><code"@ + lang_attr(*lang));
        self.emit_attrs(attrs);
        self.lit(">");
        self.esc(code.as_str());
        self.lit("</code></pre>\n");
        assert(self.output() =~= start + "<pre><code"@ + lang_attr(*lang) + attrs_html(*attrs) + ">"@ + esc_text(code@)
            + "</code></pre>\n"@);
    }

    /// Render a raw HTML block, ending it with a line break.
    fn render_html(&mut self, html: &String)
        requires
            old(self).wf(),
        ensures
            final(self).wf(),
            final(self).options() == old(self).options(),
            final(self).output() == old(self).output() + (if html@.len() > 0 && html@.last() == '\n' {
                html@
            } else {
                html@.push('\n')
            }),
    {
        let ghost start = self.output();
        self.lit(html.as_str());
        let cs = str_to_chars(html.as_str());
        if !(cs.len() > 0 && cs[cs.len() - 1] == '\n') {
            push_char(&mut self.out, '\n');
        }
        assert(self.output() =~= start + (if html@.len() > 0 && html@.last() == '\n' {
            html@
        } else {
            html@.push('\n')
        }));
    }

    /// Render a sequence of blocks.
    fn render_blocks(&mut self, v: &Vec<Block>)
        requires
            old(self).wf(),
        ensures
            final(self).wf(),
            final(self).options() == old(self).options(),
            final(self).output() == old(self).output() + blocks_html(v@),
        decreases v,
    {
        let ghost start = self.output();
        let mut k: usize = 0;
        assert(v@.take(0) =~= Seq::<Block>::empty());
        while k < v.len()
            invariant
                k <= v@.len(),
                self.wf(),
                self.options() == old(self).options(),
                start == old(self).output(),
                self.output() == start + blocks_html(v@.take(k as int)),
            decreases v@.len() - k,
        {
            proof {
                assert(decreases_to!(v => v@));
                assert(decreases_to!(v@ => v@[k as int]));
            }
            self.render_block(&v[k]);
            proof {
                assert(v@.take(k + 1).drop_last() =~= v@.take(k as int));
                assert(v@.take(k + 1).last() == v@[k as int]);
            }
            k += 1;
            assert(self.output() =~= start + blocks_html(v@.take(k as int)));
        }
        assert(v@.take(v@.len() as int) =~= v@);
    }

    /// Render a list item (`<li>`): a checkbox for a task item, and a tight
    /// item's paragraph without `<p>`.
    fn render_list_item(&mut self, item: &ListItem)
        requires
            old(self).wf(),
        ensures
            final(self).wf(),
            final(self).options() == old(self).options(),
            final(self).output() == old(self).output() + item_html(*item),
        decreases item,
    {
        let ghost start = self.output();
        self.lit("<li");
        match item.task {
            Some(t) => {
                self.lit(" class=\"task-list-item\"");
                if matches!(t, TaskState::Checked) {
                    self.lit(" data-checked=\"true\"");
                }
            },
            None => {},
        }
        self.lit(">");
        match item.task {
            Some(t) => {
                self.lit("<input type=\"checkbox\" class=\"task-list-item-checkbox\"");
                if matches!(t, TaskState::Checked) {
                    self.lit(" checked");
                }
                self.lit(" disabled> ");
            },
            None => {},
        }
        assert(self.output() =~= start + item_open(item.task));
        let ghost mid = self.output();
        let is_tight = item.children.len() == 1 && match &item.children[0] {
            Block::Paragraph { .. } => true,
            _ => false,
        };
        if is_tight {
            match &item.children[0] {
                Block::Paragraph { children, .. } => {
                    proof {
                        assert(decreases_to!(item => item.children));
                        assert(decreases_to!(item.children => item.children@));
                        assert(decreases_to!(item.children@ => item.children@[0]));
                    }
                    self.render_inlines(children);
                },
                _ => {},
            }
        } else {
            self.lit("\n");
            self.render_blocks(&item.children);
        }
        self.lit("</li>\n");
        assert(self.output() =~= start + item_html(*item));
    }

    /// Render a sequence of list items.
    fn render_items(&mut self, v: &Vec<ListItem>)
        requires
            old(self).wf(),
        ensures
            final(self).wf(),
            final(self).options() == old(self).options(),
            final(self).output() == old(self).output() + items_html(v@),
        decreases v,
    {
        let ghost start = self.output();
        let mut k: usize = 0;
        assert(v@.take(0) =~= Seq::<ListItem>::empty());
        while k < v.len()
            invariant
                k <= v@.len(),
                self.wf(),
                self.options() == old(self).options(),
                start == old(self).output(),
                self.output() == start + items_html(v@.take(k as int)),
            decreases v@.len() - k,
        {
            proof {
                assert(decreases_to!(v => v@));
                assert(decreases_to!(v@ => v@[k as int]));
            }
            self.render_list_item(&v[k]);
            proof {
                assert(v@.take(k + 1).drop_last() =~= v@.take(k as int));
                assert(v@.take(k + 1).last() == v@[k as int]);
            }
            k += 1;
            assert(self.output() =~= start + items_html(v@.take(k as int)));
        }
        assert(v@.take(v@.len() as int) =~= v@);
    }

    /// Render a GFM table.
    fn render_table(&mut self, table: &Table, attrs: &Option<Attributes>)
        requires
            old(self).wf(),
        ensures
            final(self).wf(),
            final(self).options() == old(self).options(),
            final(self).output() == old(self).output() + table_html(*table, *attrs),
    {
        let ghost start = self.output();
        self.lit("<table");
        self.emit_attrs(attrs);
        self.lit(">\n<thead>\n<tr>\n");
        self.render_cells(&table.header.cells, &table.alignments, true);
        self.lit("</tr>\n</thead>\n<tbody>\n");
        let ghost mid = self.output();
        let mut r: usize = 0;
        let ghost rows = table.rows@;
        let ghost al = table.alignments@;
        assert(rows.take(0) =~= Seq::<TableRow>::empty());
        while r < table.rows.len()
            invariant
                r <= rows.len(),
                rows == table.rows@,
                al == table.alignments@,
                self.wf(),
                self.options() == old(self).options(),
                self.output() == mid + rows_html(rows.take(r as int), al),
            decreases rows.len() - r,
        {
            self.lit("<tr>\n");
            self.render_cells(&table.rows[r].cells, &table.alignments, false);
            self.lit("</tr>\n");
            proof {
                assert(rows.take(r + 1).drop_last() =~= rows.take(r as int));
                assert(rows.take(r + 1).last() == rows[r as int]);
            }
            r += 1;
            assert(self.output() =~= mid + rows_html(rows.take(r as int), al));
        }
        assert(rows.take(rows.len() as int) =~= rows);
        self.lit("</tbody>\n</table>\n");
        assert(self.output() =~= start + table_html(*table, *attrs));
    }

    /// Render the cells of one row (`<th>` in the header, `<td>` otherwise).
    fn render_cells(&mut self, cells: &Vec<TableCell>, al: &Vec<TableCellAlignment>, header: bool)
        requires
            old(self).wf(),
        ensures
            final(self).wf(),
            final(self).options() == old(self).options(),
            final(self).output() == old(self).output() + (if header {
                cells_html(cells@, al@, "<th"@, "</th>\n"@)
            } else {
                cells_html(cells@, al@, "<td"@, "</td>\n"@)
            }),
    {
        let ghost start = self.output();
        let ghost open = if header { "<th"@ } else { "<td"@ };
        let ghost close = if header { "</th>\n"@ } else { "</td>\n"@ };
        let mut k: usize = 0;
        assert(cells@.take(0) =~= Seq::<TableCell>::empty());
        while k < cells.len()
            invariant
                k <= cells@.len(),
                self.wf(),
                self.options() == old(self).options(),
                open == (if header { "<th"@ } else { "<td"@ }),
                close == (if header { "</th>\n"@ } else { "</td>\n"@ }),
                self.output() == start + cells_html(cells@.take(k as int), al@, open, close),
            decreases cells@.len() - k,
        {
            if header {
                self.lit("<th");
            } else {
                self.lit("<td");
            }
            let a = if k < al.len() { Some(al[k]) } else { None };
            self.emit_align(a);
            self.lit(">");
            self.render_inlines(&cells[k].children);
            if header {
                self.lit("</th>\n");
            } else {
                self.lit("</td>\n");
            }
            proof {
                assert(cells@.take(k + 1).drop_last() =~= cells@.take(k as int));
                assert(cells@.take(k + 1).last() == cells@[k as int]);
                assert(a == align_at(al@, k as int));
            }
            k += 1;
            assert(self.output() =~= start + cells_html(cells@.take(k as int), al@, open, close));
        }
        assert(cells@.take(cells@.len() as int) =~= cells@);
    }

    /// Append the `style` attribute of a column alignment.
    fn emit_align(&mut self, align: Option<TableCellAlignment>)
        requires
            old(self).wf(),
        ensures
            final(self).wf(),
            final(self).options() == old(self).options(),
            final(self).output() == old(self).output() + align_attr(align),
    {
        match align {
            Some(TableCellAlignment::Center) => {
                self.lit(" style=\"");
                self.lit("text-align: center");
                self.lit("\"");
            },
            Some(TableCellAlignment::Right) => {
                self.lit(" style=\"");
                self.lit("text-align: right");
                self.lit("\"");
            },
            _ => {},
        }
        assert(final(self).output() =~= old(self).output() + align_attr(align));
    }
}

impl Default for AstToHtml {
    fn default() -> (r: Self)
        ensures
            r.wf(),
            r.output() == Seq::<char>::empty(),
            r.options() == default_render_options(),
    {
        Self::new(None)
    }
}

/// Escaped text is inert: it holds no `<`, `>`, `"` or `'`, so it can
/// neither open a tag nor end an attribute value.
pub proof fn law_escaped_text_is_inert(s: Seq<char>)
    ensures
        forall|k: int|
            0 <= k < esc_text(s).len() ==> #[trigger] esc_text(s)[k] != '<' && esc_text(s)[k] != '>' && esc_text(s)[k]
                != '"' && esc_text(s)[k] != '\'',
    decreases s.len(),
{
    reveal_strlit("&amp;");
    reveal_strlit("&lt;");
    reveal_strlit("&gt;");
    reveal_strlit("&quot;");
    reveal_strlit("&#39;");
    if s.len() > 0 {
        law_escaped_text_is_inert(s.drop_last());
        let p = esc_text(s.drop_last());
        let e = esc_text_char(s.last());
        assert forall|k: int| 0 <= k < esc_text(s).len() implies #[trigger] esc_text(s)[k] != '<' && esc_text(s)[k]
            != '>' && esc_text(s)[k] != '"' && esc_text(s)[k] != '\'' by {
            if k < p.len() {
                assert(esc_text(s)[k] == p[k]);
            } else {
                assert(esc_text(s)[k] == e[k - p.len()]);
            }
        }
    }
}


/// `p` occurs in `s` at index `k`.
pub open spec fn occurs_at(s: Seq<char>, p: Seq<char>, k: int) -> bool {
    0 <= k && k + p.len() <= s.len() && s.subrange(k, k + p.len()) == p
}

proof fn lemma_occurs_within(x: Seq<char>, y: Seq<char>, z: Seq<char>, p: Seq<char>, k: int)
    requires
        occurs_at(y, p, k),
    ensures
        occurs_at(x + y + z, p, x.len() + k),
{
    assert((x + y + z).subrange(x.len() + k, x.len() + k + p.len()) =~= y.subrange(k, k + p.len()));
}

proof fn lemma_cell_occurs(
    cells: Seq<TableCell>,
    al: Seq<TableCellAlignment>,
    open: Seq<char>,
    close: Seq<char>,
    i: int,
) -> (k: int)
    requires
        0 <= i < cells.len(),
    ensures
        occurs_at(
            cells_html(cells, al, open, close),
            open + align_attr(align_at(al, i)) + ">"@ + inlines_html(cells[i].children@) + close,
            k,
        ),
    decreases cells.len(),
{
    let pre = cells_html(cells.drop_last(), al, open, close);
    let piece = open + align_attr(align_at(al, i)) + ">"@ + inlines_html(cells[i].children@) + close;
    if i == cells.len() - 1 {
        let whole = cells_html(cells, al, open, close);
        assert(whole =~= pre + piece);
        assert(whole.subrange(pre.len() as int, (pre.len() + piece.len()) as int) =~= piece);
        pre.len() as int
    } else {
        assert(cells.drop_last()[i] == cells[i]);
        let k0 = lemma_cell_occurs(cells.drop_last(), al, open, close, i);
        let last = cells.len() - 1;
        let tail = open + align_attr(align_at(al, last)) + ">"@ + inlines_html(cells.last().children@) + close;
        lemma_occurs_within(Seq::empty(), pre, tail, piece, k0);
        assert(Seq::<char>::empty() + pre + tail =~= cells_html(cells, al, open, close));
        k0
    }
}

proof fn lemma_body_cell_occurs(rows: Seq<TableRow>, al: Seq<TableCellAlignment>, r: int, i: int) -> (k: int)
    requires
        0 <= r < rows.len(),
        0 <= i < rows[r].cells@.len(),
    ensures
        occurs_at(
            rows_html(rows, al),
            "<td"@ + align_attr(align_at(al, i)) + ">"@ + inlines_html(rows[r].cells@[i].children@) + "</td>\n"@,
            k,
        ),
    decreases rows.len(),
{
    let pre = rows_html(rows.drop_last(), al);
    let piece = "<td"@ + align_attr(align_at(al, i)) + ">"@ + inlines_html(rows[r].cells@[i].children@) + "</td>\n"@;
    if r == rows.len() - 1 {
        let k0 = lemma_cell_occurs(rows.last().cells@, al, "<td"@, "</td>\n"@, i);
        let cells = cells_html(rows.last().cells@, al, "<td"@, "</td>\n"@);
        lemma_occurs_within(pre + "<tr>\n"@, cells, "</tr>\n"@, piece, k0);
        assert(pre + "<tr>\n"@ + cells + "</tr>\n"@ =~= rows_html(rows, al));
        (pre + "<tr>\n"@).len() + k0
    } else {
        assert(rows.drop_last()[r] == rows[r]);
        let k0 = lemma_body_cell_occurs(rows.drop_last(), al, r, i);
        let tail = "<tr>\n"@ + cells_html(rows.last().cells@, al, "<td"@, "</td>\n"@) + "</tr>\n"@;
        lemma_occurs_within(Seq::empty(), pre, tail, piece, k0);
        assert(Seq::<char>::empty() + pre + tail =~= rows_html(rows, al));
        k0
    }
}

/// Every body cell of a table is rendered with its column's alignment,
/// as the header cell of that column is: cell `i` of body row `r` appears
/// in the table's HTML as `<td` with the `style` of alignment `i`, its
/// content and `</td>`.
pub proof fn law_body_cells_aligned(t: Table, attrs: Option<Attributes>, r: int, i: int) -> (k: int)
    requires
        0 <= r < t.rows@.len(),
        0 <= i < t.rows@[r].cells@.len(),
    ensures
        occurs_at(
            table_html(t, attrs),
            "<td"@ + align_attr(align_at(t.alignments@, i)) + ">"@ + inlines_html(t.rows@[r].cells@[i].children@)
                + "</td>\n"@,
            k,
        ),
{
    let k0 = lemma_body_cell_occurs(t.rows@, t.alignments@, r, i);
    let pre = "<table"@ + attrs_html(attrs) + ">\n<thead>\n<tr>\n"@ + cells_html(t.header.cells@, t.alignments@, "<th"@, "</th>\n"@)
        + "</tr>\n</thead>\n<tbody>\n"@;
    let piece = "<td"@ + align_attr(align_at(t.alignments@, i)) + ">"@ + inlines_html(t.rows@[r].cells@[i].children@)
        + "</td>\n"@;
    lemma_occurs_within(pre, rows_html(t.rows@, t.alignments@), "</tbody>\n</table>\n"@, piece, k0);
    assert(pre + rows_html(t.rows@, t.alignments@) + "</tbody>\n</table>\n"@ =~= table_html(t, attrs));
    pre.len() + k0
}

/// Every header cell of a table is rendered with its column's alignment:
/// header cell `i` appears as `<th` with the `style` of alignment `i`, its
/// content and `</th>`.
pub proof fn law_header_cells_aligned(t: Table, attrs: Option<Attributes>, i: int) -> (k: int)
    requires
        0 <= i < t.header.cells@.len(),
    ensures
        occurs_at(
            table_html(t, attrs),
            "<th"@ + align_attr(align_at(t.alignments@, i)) + ">"@ + inlines_html(t.header.cells@[i].children@)
                + "</th>\n"@,
            k,
        ),
{
    let k0 = lemma_cell_occurs(t.header.cells@, t.alignments@, "<th"@, "</th>\n"@, i);
    let pre = "<table"@ + attrs_html(attrs) + ">\n<thead>\n<tr>\n"@;
    let post = "</tr>\n</thead>\n<tbody>\n"@ + rows_html(t.rows@, t.alignments@) + "</tbody>\n</table>\n"@;
    let piece = "<th"@ + align_attr(align_at(t.alignments@, i)) + ">"@ + inlines_html(t.header.cells@[i].children@)
        + "</th>\n"@;
    lemma_occurs_within(pre, cells_html(t.header.cells@, t.alignments@, "<th"@, "</th>\n"@), post, piece, k0);
    assert(pre + cells_html(t.header.cells@, t.alignments@, "<th"@, "</th>\n"@) + post =~= table_html(t, attrs));
    pre.len() + k0
}

} // verus!
