use peisar::html::options::RenderOptions;
use peisar::html::AstToHtml;
use peisar::parsers::inline::parse_inline;
use peisar::parsers::lines::{is_list_marker, normalize_label};
use peisar::parsers::md_to_ast;
use peisar::token::{Block, Inline};
use peisar::tokens::span::Span;
use peisar::{visit_document_mut, AstOptions, AstVisitor, Attributes, Document, PeisarAst, VisitControl};

fn para(text: &str) -> Block {
    Block::Paragraph {
        children: vec![Inline::Text { value: text.to_string(), pos: Span::default() }],
        pos: Span::default(),
        attrs: None,
    }
}

fn doc_of(children: Vec<Block>) -> Document {
    Document {
        node_type: "root".to_string(),
        file_name: None,
        pos: Span::default(),
        children,
        link_references: vec![],
    }
}

#[test]
fn position_past_the_end_is_the_byte_length() {
    let r = parse_inline("a", None);
    assert!(matches!(&r[0], Inline::Text { pos, .. } if pos.end.offset == 1 && pos.end.column == 1));
    let r = parse_inline("é", None);
    assert!(matches!(&r[0], Inline::Text { pos, .. } if pos.end.offset == 2 && pos.end.column == 1));
}

#[test]
fn ordered_marker_needs_a_space() {
    assert!(!is_list_marker("1."));
    assert!(!is_list_marker("1)"));
    assert!(!is_list_marker("1234567890. x"));
    assert!(is_list_marker("12. x"));
    assert!(is_list_marker("3) x"));
}

#[test]
fn body_class_goes_on_body_only() {
    let opts = RenderOptions { fragment: false, body_class: Some("dark".into()), ..Default::default() };
    let mut r = AstToHtml::new(Some(opts));
    r.render_document(&Document::default());
    let s = r.finish();
    assert!(s.starts_with("<!DOCTYPE html>\n<html>\n"));
    assert!(s.contains("<body class=\"dark\">"));
    assert_eq!(s.matches("class=\"dark\"").count(), 1);
}

#[test]
fn labels_are_lowercased_beyond_ascii() {
    assert_eq!(normalize_label("ÉTÉ"), normalize_label("été"));
    assert_eq!(normalize_label("ÉTÉ"), "été");
    let s = "Straße  GROSS";
    assert_eq!(normalize_label(&normalize_label(s)), normalize_label(s));
    assert_eq!(normalize_label(s), normalize_label(&s.to_lowercase()));
}

#[test]
fn each_attribute_pair_is_written_once() {
    let a = Attributes { id: None, classes: None, attributes: Some(vec![("style".into(), "color:red".into())]) };
    assert_eq!(a.to_html_attr_string(), "style=\"color:red\"");
}

#[test]
fn attributes_without_pairs_render() {
    let a = Attributes { id: Some("x".into()), classes: None, attributes: None };
    assert_eq!(a.to_html_attr_string(), "id=\"x\"");
    let doc = md_to_ast("# Title\n{:#intro}\n", &AstOptions::default(), None);
    let html = peisar::html::render_document_html(&doc, None);
    assert!(html.contains("<h1") && html.contains("id=\"intro\"") && html.contains("Title"));
}

struct Counting {
    blocks: usize,
    inlines: usize,
}

impl AstVisitor for Counting {
    fn visit_block(&mut self, _block: &mut Block) -> VisitControl {
        self.blocks += 1;
        VisitControl::default()
    }

    fn visit_inline(&mut self, _inline: &mut Inline) -> peisar::InlineVisitControl {
        self.inlines += 1;
        peisar::InlineVisitControl::default()
    }
}

#[test]
fn an_identity_visitor_sees_the_top_level_blocks_only() {
    let src = "# A\n\n> q\n\npara *x*\n";
    let mut doc = md_to_ast(src, &AstOptions::default(), None);
    let before = md_to_ast(src, &AstOptions::default(), None);
    let mut v = Counting { blocks: 0, inlines: 0 };
    visit_document_mut(&mut doc, &mut v);
    assert_eq!(doc, before);
    assert_eq!(v.blocks, before.children.len());
    assert_eq!(v.inlines, 0);
}

struct Around {
    calls: usize,
}

impl AstVisitor for Around {
    fn visit_block(&mut self, _block: &mut Block) -> VisitControl {
        self.calls += 1;
        let mut c = VisitControl::default();
        c.insert_before.push(para("x"));
        c.insert_after.push(para("y"));
        c
    }
}

#[test]
fn inserted_nodes_surround_the_node_and_are_not_visited() {
    let mut doc = doc_of(vec![para("b0")]);
    let mut v = Around { calls: 0 };
    visit_document_mut(&mut doc, &mut v);
    assert_eq!(doc.children, vec![para("x"), para("b0"), para("y")]);
    assert_eq!(v.calls, 1);
}

struct ReplaceFirst {
    seen: Vec<String>,
}

impl AstVisitor for ReplaceFirst {
    fn visit_block(&mut self, block: &mut Block) -> VisitControl {
        if let Block::Paragraph { children, .. } = block {
            if let Inline::Text { value, .. } = &children[0] {
                self.seen.push(value.clone());
                if value == "b0" {
                    let mut c = VisitControl::replace_with(vec![para("r1"), para("r2")]);
                    c.insert_after.push(para("y"));
                    return c;
                }
            }
        }
        VisitControl::default()
    }
}

#[test]
fn replacements_are_visited_and_the_after_nodes_follow_them() {
    let mut doc = doc_of(vec![para("b0")]);
    let mut v = ReplaceFirst { seen: vec![] };
    visit_document_mut(&mut doc, &mut v);
    assert_eq!(doc.children, vec![para("r1"), para("r2"), para("y")]);
    assert_eq!(v.seen, vec!["b0", "r1", "r2"]);
}

struct DropX;

impl AstVisitor for DropX {
    fn visit_block(&mut self, block: &mut Block) -> VisitControl {
        let is_x = matches!(block, Block::Paragraph { children, .. }
            if matches!(&children[0], Inline::Text { value, .. } if value == "x"));
        if is_x {
            VisitControl::remove()
        } else {
            VisitControl::default()
        }
    }
}

#[test]
fn a_filtering_visitor_keeps_the_order_of_the_rest() {
    let mut doc = doc_of(vec![para("a"), para("x"), para("b"), para("x"), para("c")]);
    visit_document_mut(&mut doc, &mut DropX);
    assert_eq!(doc.children, vec![para("a"), para("b"), para("c")]);
}

#[test]
fn reading_the_ast_runs_the_visitors() {
    let mut ast = PeisarAst::<DropX>::new("a\n\nx\n\nb\n", None);
    ast.add_visitor(DropX);
    let doc = ast.ast();
    assert_eq!(doc.children.len(), 2);
}
