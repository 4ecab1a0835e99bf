use peisar::parsers::lines::{normalize_label, parse_task_marker};
use peisar::parsers::md_to_ast;
use peisar::token::{Block, Inline, TaskState};
use peisar::{visit_document_mut, AstOptions, AstVisitor, InlineVisitControl, VisitControl};

#[test]
fn task_marker_without_a_marker_char_is_none() {
    assert_eq!(parse_task_marker("1"), None);
    assert_eq!(parse_task_marker("12"), None);
    assert_eq!(parse_task_marker("1é [x] a"), None);
    assert_eq!(parse_task_marker("- item"), None);
    assert_eq!(parse_task_marker("- [x] done"), Some((TaskState::Checked, 5)));
    assert_eq!(parse_task_marker("- [ ] todo"), Some((TaskState::Unchecked, 5)));
    assert_eq!(parse_task_marker("1. [X] ok"), Some((TaskState::Checked, 6)));
}

#[test]
fn normalizing_a_label_twice_changes_nothing() {
    for s in ["  Foo   BAR ", "Mixed\tCASE", "", "a\n\nb", "ÄÖ Ü"] {
        let once = normalize_label(s);
        assert_eq!(normalize_label(&once), once);
    }
}

#[test]
fn ascii_label_case_does_not_matter() {
    for s in ["Hello World", "  ABC\tdef  ", "x-Y_z"] {
        assert_eq!(normalize_label(s), normalize_label(&s.to_ascii_lowercase()));
    }
    assert_eq!(normalize_label("Hello"), "hello");
}

#[test]
fn definitions_come_in_line_order() {
    let doc = md_to_ast("[b]: /b\ntext\n[A]: /a\n[c]: /c \"C\"\n", &AstOptions::default(), None);
    let labels: Vec<&str> = doc.link_references.iter().map(|d| d.label.as_str()).collect();
    assert_eq!(labels, vec!["b", "a", "c"]);
    assert_eq!(doc.link_references[1].pos.start.line, 2);
}

struct Recorder {
    blocks: Vec<String>,
    inlines: Vec<String>,
}

fn block_name(b: &Block) -> String {
    match b {
        Block::Heading { .. } => "heading".into(),
        Block::Paragraph { .. } => "paragraph".into(),
        Block::BlockQuote { .. } => "quote".into(),
        Block::List { .. } => "list".into(),
        _ => "other".into(),
    }
}

fn inline_name(i: &Inline) -> String {
    match i {
        Inline::Text { value, .. } => format!("text:{}", value),
        Inline::Emphasis { .. } => "emph".into(),
        Inline::Link { .. } => "link".into(),
        _ => "other".into(),
    }
}

impl AstVisitor for Recorder {
    fn visit_block(&mut self, b: &mut Block) -> VisitControl {
        self.blocks.push(block_name(b));
        VisitControl::keep_and_recurse()
    }
    fn visit_inline(&mut self, i: &mut Inline) -> InlineVisitControl {
        self.inlines.push(inline_name(i));
        InlineVisitControl::keep_and_recurse()
    }
}

#[test]
fn recursing_keeper_sees_everything_in_pre_order_and_changes_nothing() {
    let src = "# T\n\n> q *e*\n\n- [l](/u)\n";
    let mut doc = md_to_ast(src, &AstOptions::default(), None);
    let before = doc.clone();
    let mut v = Recorder { blocks: vec![], inlines: vec![] };
    visit_document_mut(&mut doc, &mut v);
    assert_eq!(doc, before);
    assert_eq!(v.blocks, vec!["heading", "quote", "paragraph", "list", "paragraph"]);
    assert_eq!(
        v.inlines,
        vec!["text:T", "text:q ", "emph", "text:e", "link", "text:l"]
    );
}

#[test]
fn cloned_document_is_equal() {
    let doc = md_to_ast("# A\n\n- x\n\n|a|b|\n|-|-|\n|1|2|\n", &AstOptions::default(), None);
    assert_eq!(doc.clone(), doc);
}
