//! The high-level Markdown processor: a parsed document together with its
//! front matter and a list of visitors.

use crate::frontmatter::{frontmatter_split, parse_markdown_frontmatter, yaml_accepts, yaml_value};
use crate::options::AstOptions;
use crate::parsers::visitor::{visit_document_mut, visited_to, AstVisitor};
use crate::tokens::token::Block;
use crate::parsers::{md_to_ast, parsed_document, Document};
use vstd::prelude::*;

verus! {

/// The Markdown that the processor parses: the text after its front matter
/// when there is a front matter block holding valid YAML, else the whole
/// text.
pub open spec fn processed_body(raw: Seq<char>) -> Seq<char> {
    match frontmatter_split(raw) {
        Some((y, b)) => if yaml_accepts(y) {
            b
        } else {
            raw
        },
        None => raw,
    }
}

/// The options in effect: the given ones, else the defaults.
pub open spec fn opts_of(options: Option<AstOptions>) -> AstOptions {
    match options {
        Some(o) => o,
        None => AstOptions { gfm: true, kramdown: true, file_name: None },
    }
}

/// The file name that the options give, if any.
pub open spec fn file_name_of(options: Option<AstOptions>) -> Option<String> {
    match options {
        Some(o) => o.file_name,
        None => None,
    }
}

/// A parsed Markdown document with its front matter value (if any) and the
/// visitors to run over it, in order.
pub struct PeisarAst<V: AstVisitor> {
    ast: Document,
    visitors: Vec<V>,
    frontmatter: Option<serde_json::Value>,
}

impl<V: AstVisitor> PeisarAst<V> {
    /// The document.
    pub closed spec fn doc(&self) -> Document {
        self.ast
    }

    /// The registered visitors.
    pub closed spec fn visitor_list(&self) -> Seq<V> {
        self.visitors@
    }

    /// The front matter value.
    pub closed spec fn front(&self) -> Option<serde_json::Value> {
        self.frontmatter
    }

    /// Parse raw Markdown (front matter first, then the body); `None`
    /// options are the defaults.  A front matter block that is not valid
    /// YAML is left in the text and gives no value.
    pub fn new(raw_md: &str, options: Option<AstOptions>) -> (r: Self)
        ensures
            parsed_document(r.doc(), processed_body(raw_md@), opts_of(options), file_name_of(options)),
            r.visitor_list().len() == 0,
            r.front() == match frontmatter_split(raw_md@) {
                Some((y, _)) => yaml_value(y),
                None => None,
            },
    {
        let opts = match options {
            Some(o) => o,
            None => AstOptions::default(),
        };
        let f_n: Option<String> = match &opts.file_name {
            None => None,
            Some(f) => Some(f.clone()),
        };
        let (md_content, frontmatter) = match parse_markdown_frontmatter(raw_md) {
            Ok(parsed) => parsed.into_parts(),
            Err(_) => (String::from_str(raw_md), None),
        };
        let ast = md_to_ast(md_content.as_str(), &opts, f_n);
        PeisarAst { ast, visitors: Vec::new(), frontmatter }
    }

    /// Add a visitor; visitors run in the order they were added.
    pub fn add_visitor(&mut self, visitor: V)
        ensures
            final(self).visitor_list() == old(self).visitor_list().push(visitor),
            final(self).doc() == old(self).doc(),
            final(self).front() == old(self).front(),
    {
        self.visitors.push(visitor);
    }

    /// Run every visitor, in order, over the document.  Only the document's
    /// children change.
    pub fn visit_all(&mut self)
        ensures
            final(self).visitor_list().len() == old(self).visitor_list().len(),
            final(self).front() == old(self).front(),
            same_header(final(self).doc(), old(self).doc()),
            visited_in_turn(old(self).doc().children@, final(self).doc().children@, old(self).visitor_list().len()),
    {
        let ghost c0 = self.ast.children@;
        let ghost mut cs: Seq<Seq<Block>> = seq![c0];
        let mut k: usize = 0;
        while k < self.visitors.len()
            invariant
                self.visitors@.len() == old(self).visitors@.len(),
                self.frontmatter == old(self).frontmatter,
                same_header(self.ast, old(self).ast),
                c0 == old(self).ast.children@,
                k <= self.visitors@.len(),
                cs.len() == k + 1,
                cs[0] == c0,
                cs[k as int] == self.ast.children@,
                forall|j: int| 0 <= j < k ==> #[trigger] visited_to(cs[j], cs[j + 1]),
            decreases self.visitors@.len() - k,
        {
            let mut v = self.visitors.remove(k);
            let ghost before = self.ast.children@;
            visit_document_mut(&mut self.ast, &mut v);
            self.visitors.insert(k, v);
            proof {
                let cs2 = cs.push(self.ast.children@);
                assert forall|j: int| 0 <= j < k + 1 implies #[trigger] visited_to(cs2[j], cs2[j + 1]) by {
                    if j < k {
                        assert(cs2[j] == cs[j] && cs2[j + 1] == cs[j + 1]);
                    } else {
                        assert(cs2[j] == before && cs2[j + 1] == self.ast.children@);
                    }
                }
                cs = cs2;
            }
            k += 1;
        }
        proof {
            assert(cs.len() == old(self).visitors@.len() + 1);
        }
    }

    /// Remove all visitors; the document stays.
    pub fn clear_visitors(&mut self)
        ensures
            final(self).visitor_list().len() == 0,
            final(self).doc() == old(self).doc(),
            final(self).front() == old(self).front(),
    {
        self.visitors.clear();
    }

    /// Take the visitors, leaving none.
    pub fn take_visitors(&mut self) -> (r: Vec<V>)
        ensures
            r@ == old(self).visitor_list(),
            final(self).visitor_list().len() == 0,
            final(self).doc() == old(self).doc(),
            final(self).front() == old(self).front(),
    {
        let mut out: Vec<V> = Vec::new();
        std::mem::swap(&mut out, &mut self.visitors);
        out
    }

    /// Run the visitors (if there are any) before handing out the result.
    fn settle(&mut self)
        ensures
            final(self).visitor_list().len() == old(self).visitor_list().len(),
            final(self).front() == old(self).front(),
            same_header(final(self).doc(), old(self).doc()),
            old(self).visitor_list().len() == 0 ==> final(self).doc() == old(self).doc(),
            old(self).visitor_list().len() > 0 ==> visited_in_turn(
                old(self).doc().children@,
                final(self).doc().children@,
                old(self).visitor_list().len(),
            ),
    {
        if self.visitors.len() > 0 {
            self.visit_all();
        }
    }

    /// The document, after the visitors (if any) have run.
    pub fn ast(&mut self) -> (r: &Document)
        ensures
            *r == final(self).doc(),
            final(self).visitor_list().len() == old(self).visitor_list().len(),
            final(self).front() == old(self).front(),
            same_header(final(self).doc(), old(self).doc()),
            old(self).visitor_list().len() == 0 ==> final(self).doc() == old(self).doc(),
            old(self).visitor_list().len() > 0 ==> visited_in_turn(
                old(self).doc().children@,
                r.children@,
                old(self).visitor_list().len(),
            ),
    {
        self.settle();
        &self.ast
    }

    /// The document, mutably, after the visitors (if any) have run.
    pub fn ast_mut(&mut self) -> (r: &mut Document)
        ensures
            same_header(*r, old(self).doc()),
            old(self).visitor_list().len() == 0 ==> *r == old(self).doc(),
            old(self).visitor_list().len() > 0 ==> visited_in_turn(
                old(self).doc().children@,
                r.children@,
                old(self).visitor_list().len(),
            ),
            final(self).doc() == *final(r),
            final(self).visitor_list().len() == old(self).visitor_list().len(),
            final(self).front() == old(self).front(),
    {
        self.settle();
        &mut self.ast
    }

    /// Take the document (after the visitors, if any, have run), leaving an
    /// empty one.
    pub fn take_ast(&mut self) -> (r: Document)
        ensures
            same_header(r, old(self).doc()),
            old(self).visitor_list().len() == 0 ==> r == old(self).doc(),
            old(self).visitor_list().len() > 0 ==> visited_in_turn(
                old(self).doc().children@,
                r.children@,
                old(self).visitor_list().len(),
            ),
            final(self).doc().children@.len() == 0,
            final(self).doc().link_references@.len() == 0,
            final(self).doc().node_type@ == "root"@,
            final(self).front() == old(self).front(),
    {
        self.settle();
        let mut out = Document::default();
        std::mem::swap(&mut out, &mut self.ast);
        out
    }

    /// The front matter value (after the visitors, if any, have run).
    pub fn frontmatter(&mut self) -> (r: Option<&serde_json::Value>)
        ensures
            match (r, old(self).front()) {
                (Some(x), Some(y)) => *x == y,
                (None, None) => true,
                _ => false,
            },
            final(self).front() == old(self).front(),
            same_header(final(self).doc(), old(self).doc()),
            old(self).visitor_list().len() == 0 ==> final(self).doc() == old(self).doc(),
            old(self).visitor_list().len() > 0 ==> visited_in_turn(
                old(self).doc().children@,
                final(self).doc().children@,
                old(self).visitor_list().len(),
            ),
    {
        self.settle();
        self.frontmatter.as_ref()
    }

    /// Take the front matter value, leaving none.
    pub fn take_frontmatter(&mut self) -> (r: Option<serde_json::Value>)
        ensures
            r == old(self).front(),
            final(self).front() is None,
            same_header(final(self).doc(), old(self).doc()),
            old(self).visitor_list().len() == 0 ==> final(self).doc() == old(self).doc(),
            old(self).visitor_list().len() > 0 ==> visited_in_turn(
                old(self).doc().children@,
                final(self).doc().children@,
                old(self).visitor_list().len(),
            ),
    {
        self.settle();
        let mut out: Option<serde_json::Value> = None;
        std::mem::swap(&mut out, &mut self.frontmatter);
        out
    }
}

/// `c2` is what running `n` visitors in turn over the blocks `c` can
/// give: there are lists from `c` to `c2`, each what one visitor's
/// traversal made of the one before.
pub open spec fn visited_in_turn(c: Seq<Block>, c2: Seq<Block>, n: nat) -> bool {
    exists|cs: Seq<Seq<Block>>|
        #![trigger cs.len()]
        cs.len() == n + 1 && cs[0] == c && cs[n as int] == c2 && forall|k: int|
            0 <= k < n ==> #[trigger] visited_to(cs[k], cs[k + 1])
}

/// Two documents agree on everything but their children.
pub open spec fn same_header(a: Document, b: Document) -> bool {
    &&& a.node_type == b.node_type
    &&& a.file_name == b.file_name
    &&& a.pos == b.pos
    &&& a.link_references == b.link_references
}

} // verus!
