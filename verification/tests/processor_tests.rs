use peisar::token::{Block, Inline};
use peisar::{AstVisitor, InlineVisitControl, PeisarAst, VisitControl};

struct NoopVisitor;
impl AstVisitor for NoopVisitor {
    fn visit_block(&mut self, _block: &mut Block) -> VisitControl {
        VisitControl::default()
    }
    fn visit_inline(&mut self, _inline: &mut Inline) -> InlineVisitControl {
        InlineVisitControl::default()
    }
}

#[test]
fn test_peisar_ast_basic() {
    let md = "# Hello\n\nWorld.\n";
    let mut ast: PeisarAst<NoopVisitor> = PeisarAst::new(md, None);
    assert_eq!(ast.ast().children.len(), 2);
}

#[test]
fn test_peisar_ast_take_ast() {
    let mut ast: PeisarAst<NoopVisitor> = PeisarAst::new("# T\n\nbody\n", None);
    let doc = ast.take_ast();
    assert_eq!(doc.children.len(), 2);
    assert_eq!(ast.ast().children.len(), 0);
}

#[test]
fn test_peisar_ast_frontmatter() {
    let md = "---\ntitle: Test\n---\n\n# Hello\n";
    let mut ast: PeisarAst<NoopVisitor> = PeisarAst::new(md, None);
    assert!(ast
        .ast()
        .children
        .iter()
        .any(|b| matches!(b, Block::Heading { level: 1, .. })));
}

struct Remover;
impl AstVisitor for Remover {
    fn visit_block(&mut self, _block: &mut Block) -> VisitControl {
        VisitControl::remove()
    }
}

#[test]
fn visitors_run_before_the_ast_is_handed_out() {
    let mut ast: PeisarAst<Remover> = PeisarAst::new("# A\n\nB\n", None);
    ast.add_visitor(Remover);
    assert_eq!(ast.ast().children.len(), 0);
    assert_eq!(ast.take_visitors().len(), 1);
}

#[test]
fn frontmatter_value_is_kept() {
    let mut ast: PeisarAst<NoopVisitor> = PeisarAst::new("---\ntitle: Test\n---\nBody\n", None);
    assert_eq!(ast.frontmatter().unwrap()["title"], "Test");
    let fm = ast.take_frontmatter();
    assert!(fm.is_some());
    assert!(ast.frontmatter().is_none());
}
