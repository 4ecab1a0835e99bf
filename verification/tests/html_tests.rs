use peisar::html::options::RenderOptions;
use peisar::html::{render_document_html, AstToHtml};
use peisar::token::{Block, Inline};
use peisar::{AstOptions, Attributes, Document};

fn render(md: &str) -> String {
    let doc = Document::parse(md, &AstOptions::default(), None);
    render_document_html(&doc, None)
}

fn render_full(md: &str, opts: RenderOptions) -> String {
    let doc = Document::parse(md, &AstOptions::default(), None);
    render_document_html(&doc, Some(opts))
}

#[test]
fn heading_h1() {
    assert_eq!(render("# Hello\n"), "<h1>Hello</h1>\n");
}

#[test]
fn heading_h3() {
    assert_eq!(render("### Sub\n"), "<h3>Sub</h3>\n");
}

#[test]
fn heading_with_emphasis() {
    let html = render("# Hello *world*\n");
    assert!(html.contains("<h1>Hello <em>world</em></h1>"));
}

#[test]
fn paragraph_plain() {
    assert_eq!(render("Hello.\n"), "<p>Hello.</p>\n");
}

#[test]
fn paragraph_with_bold() {
    let html = render("**bold** text\n");
    assert_eq!(html, "<p><strong>bold</strong> text</p>\n");
}

#[test]
fn paragraph_with_italic() {
    let html = render("*italic*\n");
    assert_eq!(html, "<p><em>italic</em></p>\n");
}

#[test]
fn text_html_escaping() {
    let html = render("5 < 10 & 20 > 15\n");
    assert!(html.contains("5 &lt; 10 &amp; 20 &gt; 15"));
}

#[test]
fn text_quote_escaping() {
    let html = render(r#"She said "hi" and 'bye'\n"#);
    assert!(html.contains("&quot;hi&quot;"));
    assert!(html.contains("&#39;bye&#39;"));
}

#[test]
fn inline_code() {
    let html = render("Use `let x = 5;` here.\n");
    assert!(html.contains("<code>let x = 5;</code>"));
}

#[test]
fn code_block_with_lang() {
    let md = "```rust\nfn main() {}\n```\n";
    let html = render(md);
    assert!(html.contains("<pre><code class=\"language-rust\">"));
    assert!(html.contains("fn main() {}"));
}

#[test]
fn code_block_escapes_html() {
    let md = "```\n<div>raw</div>\n```\n";
    let html = render(md);
    assert!(html.contains("&lt;div&gt;"));
    assert!(!html.contains("<div>raw</div>"));
}

#[test]
fn code_block_no_lang() {
    let md = "```\nplain\n```\n";
    let html = render(md);
    assert!(html.contains("<pre><code>"));
    assert!(html.contains("plain"));
}

#[test]
fn block_quote() {
    let html = render("> Wisdom.\n");
    assert!(html.contains("<blockquote>"));
    assert!(html.contains("<p>Wisdom.</p>"));
    assert!(html.contains("</blockquote>"));
}

#[test]
fn block_quote_nested() {
    let html = render("> # Heading in quote\n");
    assert!(html.contains("<blockquote>"));
    assert!(html.contains("<h1>Heading in quote</h1>"));
}

#[test]
fn unordered_list() {
    let html = render("- one\n- two\n");
    assert!(html.contains("<ul>"));
    assert!(html.contains("<li>one</li>"));
    assert!(html.contains("<li>two</li>"));
    assert!(html.contains("</ul>"));
}

#[test]
fn ordered_list() {
    let html = render("1. first\n2. second\n");
    assert!(html.contains("<ol>"));
    assert!(html.contains("<li>first</li>"));
    assert!(html.contains("</ol>"));
}

#[test]
fn task_list_checked() {
    let html = render("- [x] done\n");
    assert!(html.contains("task-list-item"));
    assert!(html.contains("checked"));
}

#[test]
fn task_list_unchecked() {
    let html = render("- [ ] todo\n");
    assert!(html.contains("task-list-item"));
    assert!(html.contains("checkbox"));
    assert!(!html.contains("checked"));
}

#[test]
fn thematic_break() {
    assert_eq!(render("---\n"), "<hr>\n");
}

#[test]
fn link() {
    let html = render("[click](https://example.com)\n");
    assert!(html.contains("<a href=\"https://example.com\">click</a>"));
}

#[test]
fn link_with_title() {
    let html = render(r#"[click](https://example.com "Title")\n"#);
    assert!(html.contains("title=\"Title\""));
}

#[test]
fn image() {
    let html = render("![alt text](img.png)\n");
    assert!(html.contains("<img src=\"img.png\" alt=\"alt text\">"));
}

#[test]
fn image_with_title() {
    let html = render(r#"![alt](img.png "My Title")\n"#);
    assert!(html.contains("title=\"My Title\""));
}

#[test]
fn strikethrough() {
    let html = render("~~deleted~~\n");
    assert!(html.contains("<del>deleted</del>"));
}

#[test]
fn table_basic() {
    let md = "| A | B |\n|---|---|\n| 1 | 2 |\n";
    let html = render(md);
    assert!(html.contains("<table>"));
    assert!(html.contains("<thead>"));
    assert!(html.contains("<tbody>"));
    assert!(html.contains("<th>A</th>"));
    assert!(html.contains("<td>1</td>"));
}

#[test]
fn table_alignment() {
    let md = "| A | B | C |\n|:---|:--:|---:|\n| 1 | 2 | 3 |\n";
    let html = render(md);
    assert!(html.contains("text-align: center"));
    assert!(html.contains("text-align: right"));
}

#[test]
fn html_block_passthrough() {
    let md = "<div class=\"raw\">content</div>\n";
    let html = render(md);
    assert!(html.contains("<div class=\"raw\">content</div>"));
}

#[test]
fn full_document_has_doctype() {
    let opts = RenderOptions {
        fragment: false,
        ..Default::default()
    };
    let html = render_full("# Title\n", opts);
    assert!(html.starts_with("<!DOCTYPE html>"));
    assert!(html.contains("<html"));
    assert!(html.contains("<head>"));
    assert!(html.contains("<body>"));
    assert!(html.contains("</html>"));
}

#[test]
fn full_document_with_title() {
    let opts = RenderOptions {
        fragment: false,
        title: Some("My Page".into()),
        ..Default::default()
    };
    let html = render_full("Hello.\n", opts);
    assert!(html.contains("<title>My Page</title>"));
}

#[test]
fn full_document_with_charset_and_viewport() {
    let opts = RenderOptions {
        fragment: false,
        ..Default::default()
    };
    let html = render_full("Hi.\n", opts);
    assert!(html.contains("<meta charset=\"utf-8\">"));
    assert!(html.contains("viewport"));
}

#[test]
fn full_document_with_style() {
    let opts = RenderOptions {
        fragment: false,
        style: Some("body { margin: 0; }".into()),
        ..Default::default()
    };
    let html = render_full("Hi.\n", opts);
    assert!(html.contains("<style>"));
    assert!(html.contains("body { margin: 0; }"));
    assert!(html.contains("</style>"));
}

#[test]
fn full_document_with_body_class() {
    let opts = RenderOptions {
        fragment: false,
        body_class: Some("dark".into()),
        ..Default::default()
    };
    let html = render_full("Hi.\n", opts);
    assert!(html.contains("class=\"dark\""));
}

#[test]
fn full_document_disable_charset() {
    let opts = RenderOptions {
        fragment: false,
        charset: false,
        ..Default::default()
    };
    let html = render_full("Hi.\n", opts);
    assert!(!html.contains("<meta charset"));
}

#[test]
fn builder_style() {
    let doc = Document::parse("# Hi\n", &AstOptions::default(), None);
    let mut r = AstToHtml::default();
    r.render_document(&doc);
    let html = r.finish();
    assert_eq!(html, "<h1>Hi</h1>\n");
}

#[test]
fn render_document_owned() {
    let doc = Document::parse("Hello.\n", &AstOptions::default(), None);
    let html = AstToHtml::default().render_document_owned(&doc);
    assert_eq!(html, "<p>Hello.</p>\n");
}

#[test]
fn render_options_from_bool() {
    let opts = RenderOptions::from(false);
    assert!(!opts.fragment);
}

#[test]
fn kramdown_id_and_class() {
    let doc = Document {
        node_type: "root".into(),
        file_name: None,
        pos: Default::default(),
        link_references: vec![],
        children: vec![Block::Paragraph {
            children: vec![Inline::Text {
                value: "Hi".into(),
                pos: Default::default(),
            }],
            pos: Default::default(),
            attrs: Some(Attributes {
                id: Some("intro".into()),
                classes: Some(vec!["highlight".into()]),
                attributes: Some(vec![("data-x".into(), "42".into())]),
            }),
        }],
    };
    let html = render_document_html(&doc, None);
    assert!(html.contains("id=\"intro\""));
    assert!(html.contains("class=\"highlight\""));
    assert!(html.contains("data-x=\"42\""));
}
