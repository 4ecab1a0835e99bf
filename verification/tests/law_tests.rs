use peisar::html::render_document_html;
use peisar::parsers::block::compute_line_starts;
use peisar::parsers::inline::{parse_inline, parse_inline_with, LinkRefMap};
use peisar::parsers::lines::normalize_label;
use peisar::parsers::md_to_ast;
use peisar::token::{Block, EmphasisLevel, Inline};
use peisar::tokens::span::{Position, Span};
use peisar::{visit_document_mut, AstOptions, AstVisitor, Document, InlineVisitControl, VisitControl};

fn text_of(i: &Inline) -> Option<&str> {
    match i {
        Inline::Text { value, .. } => Some(value.as_str()),
        _ => None,
    }
}

#[test]
fn normalize_label_ignores_case() {
    assert_eq!(normalize_label("Foo Bar"), normalize_label("fOO bAR"));
    assert_eq!(normalize_label("ABC"), "abc");
}

#[test]
fn lookup_gives_back_the_last_insert() {
    let mut m = LinkRefMap::new();
    m.insert("a".to_string(), ("u1".to_string(), None));
    m.insert("b".to_string(), ("u2".to_string(), Some("t".to_string())));
    m.insert("a".to_string(), ("u3".to_string(), None));
    let a: Vec<char> = "a".chars().collect();
    let b: Vec<char> = "b".chars().collect();
    let c: Vec<char> = "c".chars().collect();
    assert_eq!(m.lookup(&a), Some(("u3".to_string(), None)));
    assert_eq!(m.lookup(&b), Some(("u2".to_string(), Some("t".to_string()))));
    assert_eq!(m.lookup(&c), None);
}

#[test]
fn line_starts_follow_each_newline() {
    let starts = compute_line_starts("ab\ncd\n\nxé\n");
    assert_eq!(starts, vec![0, 3, 6, 7, 11]);
    assert_eq!(starts.len(), 1 + 4);
}

#[test]
fn two_trailing_spaces_make_a_hard_break() {
    let r = parse_inline("a  \nb", None);
    assert_eq!(r.len(), 3);
    assert_eq!(text_of(&r[0]), Some("a"));
    assert!(matches!(r[1], Inline::HardBreak { .. }));
    assert_eq!(text_of(&r[2]), Some("b"));
}

#[test]
fn backslash_makes_a_hard_break() {
    let r = parse_inline("a\\\nb", None);
    assert_eq!(r.len(), 3);
    assert_eq!(text_of(&r[0]), Some("a"));
    assert!(matches!(r[1], Inline::HardBreak { .. }));
    assert_eq!(text_of(&r[2]), Some("b"));
}

#[test]
fn plain_newline_is_a_soft_break() {
    let r = parse_inline("a\nb", None);
    assert_eq!(r.len(), 3);
    assert!(matches!(r[1], Inline::SoftBreak { .. }));
}

#[test]
fn strikethrough_only_with_gfm() {
    let on = parse_inline("~~s~~", None);
    assert_eq!(on.len(), 1);
    match &on[0] {
        Inline::Strikethrough { children, .. } => assert_eq!(text_of(&children[0]), Some("s")),
        other => panic!("expected strikethrough, got {:?}", other),
    }
    let opts = AstOptions { gfm: false, kramdown: true, file_name: None };
    let off = parse_inline_with("~~s~~", &opts);
    assert_eq!(off.len(), 1);
    assert_eq!(text_of(&off[0]), Some("~~s~~"));
}

#[test]
fn bare_url_becomes_an_autolink() {
    let r = parse_inline("see https://x.io now", None);
    assert_eq!(r.len(), 3);
    assert_eq!(text_of(&r[0]), Some("see "));
    match &r[1] {
        Inline::Link { url, autolink, text, .. } => {
            assert_eq!(url, "https://x.io");
            assert!(*autolink);
            assert_eq!(text_of(&text[0]), Some("https://x.io"));
        }
        other => panic!("expected link, got {:?}", other),
    }
    assert_eq!(text_of(&r[2]), Some(" now"));
}

#[test]
fn inline_html_tags_are_kept_raw() {
    let r = parse_inline("<b>x</b>", None);
    assert_eq!(r.len(), 3);
    assert!(matches!(&r[0], Inline::HtmlInline { html, .. } if html == "<b>"));
    assert_eq!(text_of(&r[1]), Some("x"));
    assert!(matches!(&r[2], Inline::HtmlInline { html, .. } if html == "</b>"));
}

#[test]
fn bold_and_italic_in_one_line() {
    let r = parse_inline("**a** and *b*", None);
    assert_eq!(r.len(), 3);
    assert!(matches!(&r[0], Inline::Emphasis { level: EmphasisLevel::Bold, children, .. } if text_of(&children[0]) == Some("a")));
    assert_eq!(text_of(&r[1]), Some(" and "));
    assert!(matches!(&r[2], Inline::Emphasis { level: EmphasisLevel::Italic, children, .. } if text_of(&children[0]) == Some("b")));
}

#[test]
fn block_quote_children_are_its_text_parsed_again() {
    let doc = md_to_ast("> a\n> b\n", &AstOptions::default(), None);
    assert_eq!(doc.children.len(), 1);
    match &doc.children[0] {
        Block::BlockQuote { children, .. } => {
            assert_eq!(children.len(), 1);
            match &children[0] {
                Block::Paragraph { children, .. } => {
                    assert_eq!(children.len(), 3);
                    assert_eq!(text_of(&children[0]), Some("a"));
                    assert!(matches!(children[1], Inline::SoftBreak { .. }));
                    assert_eq!(text_of(&children[2]), Some("b"));
                }
                other => panic!("expected paragraph, got {:?}", other),
            }
        }
        other => panic!("expected block quote, got {:?}", other),
    }
}

#[test]
fn nested_block_quotes() {
    let doc = md_to_ast("> > x\n", &AstOptions::default(), None);
    match &doc.children[0] {
        Block::BlockQuote { children, .. } => match &children[0] {
            Block::BlockQuote { children, .. } => {
                assert!(matches!(&children[0], Block::Paragraph { children, .. } if text_of(&children[0]) == Some("x")));
            }
            other => panic!("expected inner quote, got {:?}", other),
        },
        other => panic!("expected block quote, got {:?}", other),
    }
}

#[test]
fn list_item_children_are_its_text_parsed_again() {
    let doc = md_to_ast("- a\n- *b*\n", &AstOptions::default(), None);
    assert_eq!(doc.children.len(), 1);
    match &doc.children[0] {
        Block::List { ordered, items, .. } => {
            assert!(!*ordered);
            assert_eq!(items.len(), 2);
            assert!(matches!(&items[0].children[0], Block::Paragraph { children, .. } if text_of(&children[0]) == Some("a")));
            assert!(matches!(&items[1].children[0], Block::Paragraph { children, .. }
                if matches!(&children[0], Inline::Emphasis { level: EmphasisLevel::Italic, .. })));
        }
        other => panic!("expected list, got {:?}", other),
    }
}

#[test]
fn blocks_come_in_source_order() {
    let doc = md_to_ast("# T\n\npara\n\n---\n\n```\ncode\n```\n", &AstOptions::default(), None);
    assert_eq!(doc.children.len(), 4);
    assert!(matches!(doc.children[0], Block::Heading { level: 1, .. }));
    assert!(matches!(doc.children[1], Block::Paragraph { .. }));
    assert!(matches!(doc.children[2], Block::ThematicBreak { .. }));
    assert!(matches!(doc.children[3], Block::CodeBlock { .. }));
    assert!(matches!(&doc.children[0], Block::Heading { pos, .. } if pos.start.line == 0));
    assert!(matches!(&doc.children[1], Block::Paragraph { pos, .. } if pos.start.line == 2));
    assert!(matches!(&doc.children[2], Block::ThematicBreak { pos } if pos.start.line == 4));
    assert!(matches!(&doc.children[3], Block::CodeBlock { pos, .. } if pos.start.line == 6));
}

#[test]
fn definition_line_with_empty_label_still_moves_on() {
    let doc = md_to_ast("[]: x\n\nnext\n", &AstOptions::default(), None);
    assert_eq!(doc.children.len(), 2);
    assert!(matches!(&doc.children[0], Block::Paragraph { children, .. } if text_of(&children[0]) == Some("[]: x")));
    assert!(matches!(&doc.children[1], Block::Paragraph { children, .. } if text_of(&children[0]) == Some("next")));
}

#[test]
fn escaped_text_holds_no_markup() {
    let doc = Document {
        node_type: "root".to_string(),
        file_name: None,
        pos: Span::default(),
        children: vec![Block::Paragraph {
            children: vec![Inline::Text { value: "<script>x</script> & \"q\"".to_string(), pos: Span::default() }],
            attrs: None,
            pos: Span::default(),
        }],
        link_references: vec![],
    };
    let html = render_document_html(&doc, None);
    assert_eq!(html, "<p>&lt;script&gt;x&lt;/script&gt; &amp; &quot;q&quot;</p>\n");
    assert!(!html.contains("<script>"));
}

struct KeepAll;

impl AstVisitor for KeepAll {}

struct DropBreaks;

impl AstVisitor for DropBreaks {
    fn visit_block(&mut self, block: &mut Block) -> VisitControl {
        match block {
            Block::ThematicBreak { .. } => VisitControl::remove(),
            _ => VisitControl::keep_and_recurse(),
        }
    }
}

struct CodeToNote;

impl AstVisitor for CodeToNote {
    fn visit_block(&mut self, block: &mut Block) -> VisitControl {
        match block {
            Block::CodeBlock { .. } => VisitControl::replace_with(vec![Block::ThematicBreak { pos: Span::default() }]),
            _ => VisitControl::keep_and_recurse(),
        }
    }

    fn visit_inline(&mut self, _inline: &mut Inline) -> InlineVisitControl {
        InlineVisitControl::keep_and_recurse()
    }
}

const SRC: &str = "# T\n\n---\n\n```\nc\n```\n\n> q\n";

#[test]
fn keeping_every_node_leaves_the_document_unchanged() {
    let mut doc = md_to_ast(SRC, &AstOptions::default(), None);
    let before = md_to_ast(SRC, &AstOptions::default(), None);
    visit_document_mut(&mut doc, &mut KeepAll);
    assert_eq!(doc, before);
}

#[test]
fn removing_a_node_drops_only_it() {
    let mut doc = md_to_ast(SRC, &AstOptions::default(), None);
    let n = doc.children.len();
    visit_document_mut(&mut doc, &mut DropBreaks);
    assert_eq!(doc.children.len(), n - 1);
    assert!(doc.children.iter().all(|b| !matches!(b, Block::ThematicBreak { .. })));
    assert!(matches!(doc.children[0], Block::Heading { .. }));
    assert!(matches!(doc.children[1], Block::CodeBlock { .. }));
}

#[test]
fn replacing_a_node_puts_the_new_ones_in_its_place() {
    let mut doc = md_to_ast(SRC, &AstOptions::default(), None);
    let n = doc.children.len();
    visit_document_mut(&mut doc, &mut CodeToNote);
    assert_eq!(doc.children.len(), n);
    assert!(matches!(doc.children[2], Block::ThematicBreak { .. }));
    assert!(doc.children.iter().all(|b| !matches!(b, Block::CodeBlock { .. })));
}

#[test]
fn inline_spans_count_lines_columns_and_bytes() {
    let r = parse_inline("ab\n*c*", None);
    assert_eq!(r.len(), 3);
    let p = |l: usize, c: usize, o: usize| Position::new(l, c, o);
    assert!(matches!(&r[0], Inline::Text { pos, .. } if *pos == Span::new(p(0, 0, 0), p(0, 2, 2))));
    assert!(matches!(&r[1], Inline::SoftBreak { pos } if *pos == Span::new(p(0, 2, 2), p(1, 0, 3))));
    assert!(matches!(&r[2], Inline::Emphasis { pos, .. } if *pos == Span::new(p(1, 0, 3), p(1, 3, 6))));
}

#[test]
fn a_reference_resolves_to_a_later_definition() {
    let doc = md_to_ast("see [Site]\n\n[site]: https://a.example \"A\"\n", &AstOptions::default(), None);
    match &doc.children[0] {
        Block::Paragraph { children, .. } => {
            assert_eq!(text_of(&children[0]), Some("see "));
            match &children[1] {
                Inline::LinkReference { label, url, title, text, .. } => {
                    assert_eq!(label, "site");
                    assert_eq!(url, "https://a.example");
                    assert_eq!(title.as_deref(), Some("A"));
                    assert_eq!(text_of(&text[0]), Some("Site"));
                }
                other => panic!("expected a reference link, got {:?}", other),
            }
        }
        other => panic!("expected paragraph, got {:?}", other),
    }
    assert_eq!(doc.link_references.len(), 1);
}
