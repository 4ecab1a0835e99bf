//! Markdown parsers: Kramdown attributes, line classification, inlines,
//! blocks, tables, and the visitor traversal.  This module holds the
//! [`Document`] root type and the [`md_to_ast`] entry point.

pub mod atters;
pub mod block;
pub mod inline;
pub mod lines;
pub mod table;
pub mod visitor;

use crate::options::AstOptions;
use crate::parsers::block::{
    children_in_order, def_view, item_spec, list_items, nl_join, quote_end, quote_piece, step_start, steps_ok, line_starts_spec, line_views, pos_at, ref_def_line_chars,
    ref_defs_upto, split_lines, ParserState,
};
use crate::parsers::inline::LinkRefMap;
use crate::text::{lines_of, str_to_chars, utf8_len};
use crate::tokens::span::Span;
use crate::tokens::token::{Block, LinkReferenceDefinition};
use vstd::prelude::*;

verus! {

/// A Markdown document: the root of the AST, with the top-level blocks and
/// every link reference definition of the source.
#[derive(Debug, Clone, PartialEq, Eq)]
pub struct Document {
    /// Always `"root"`.
    pub node_type: String,
    /// Optional source file name.
    pub file_name: Option<String>,
    /// Span of the whole document in the source text.
    pub pos: Span,
    /// Top-level block children.
    pub children: Vec<Block>,
    /// All link reference definitions of the document.
    pub link_references: Vec<LinkReferenceDefinition>,
}

impl Default for Document {
    fn default() -> (r: Self)
        ensures
            r.node_type@ == "root"@,
            r.file_name is None,
            r.pos == Span::zero(),
            r.children@.len() == 0,
            r.link_references@.len() == 0,
    {
        Document {
            node_type: String::from_str("root"),
            file_name: None,
            pos: Span::default(),
            children: Vec::new(),
            link_references: Vec::new(),
        }
    }
}

/// The span of a whole document: from the start of its first line to the
/// start of the line after its last one.
pub open spec fn doc_span(s: Seq<char>) -> Span {
    let ls = line_starts_spec(vstd::utf8::encode_utf8(s));
    let n = utf8_len(s) as int;
    Span { start: pos_at(ls, n, 0), end: pos_at(ls, n, lines_of(s).len() as int) }
}

/// The link reference definitions of the text `s`, one per definition
/// line, in order.
pub open spec fn doc_ref_defs(s: Seq<char>) -> Seq<(Seq<char>, Seq<char>, Option<Seq<char>>, Span)> {
    let ls = line_starts_spec(vstd::utf8::encode_utf8(s));
    ref_defs_upto(lines_of(s), lines_of(s).len() as int, ls, utf8_len(s) as int)
}

/// The reference map of a list of definitions: each label to its URL and
/// title, a later definition of a label replacing an earlier one.
pub open spec fn defs_map(d: Seq<(Seq<char>, Seq<char>, Option<Seq<char>>, Span)>) -> Map<
    Seq<char>,
    (Seq<char>, Option<Seq<char>>),
>
    decreases d.len(),
{
    if d.len() == 0 {
        Map::empty()
    } else {
        defs_map(d.drop_last()).insert(d.last().0, (d.last().1, d.last().2))
    }
}

/// `s` is the block parser's state at the start of `input`: its lines, line
/// starts, options and the reference map of all its definitions.
pub open spec fn initial_state(s: ParserState<'_>, input: Seq<char>, opts: AstOptions) -> bool {
    &&& s.pos == 0
    &&& s.input@ == input
    &&& s.lv() == lines_of(input)
    &&& s.line_starts@ == line_starts_spec(vstd::utf8::encode_utf8(input))
    &&& *s.opts == opts
    &&& s.refs@ == defs_map(doc_ref_defs(input))
}

/// The text that a block quote starting at line `p` holds: its lines with
/// the `>` marker (and one space after it) taken off, joined by `\n`.
pub open spec fn quote_text(lv: Seq<Seq<char>>, p: int, kramdown: bool) -> Seq<char> {
    nl_join(lv.subrange(p, quote_end(lv, p, kramdown)).map_values(|l: Seq<char>| quote_piece(l)))
}

/// `bs` are all the blocks parsed from the cursor of `s0` on, and, to
/// nesting depth `d`, the children of each block quote and list item are
/// in turn the blocks parsed from their own text.
pub open spec fn deep_blocks(bs: Seq<Block>, s0: ParserState<'_>, d: nat) -> bool
    decreases d, 1nat,
{
    let lv = s0.lv();
    exists|ends: Seq<int>|
        #[trigger] steps_ok(bs, s0, ends) && step_start(lv, s0.pos as int, ends, bs.len() as int) >= lv.len() && (
        d > 0 ==> forall|k: int|
            0 <= k < bs.len() ==> nested_ok(
                #[trigger] bs[k],
                lv,
                *s0.opts,
                step_start(lv, s0.pos as int, ends, k),
                (d - 1) as nat,
            ))
}

/// The children of the block `b` parsed at line `p` of the lines `lv`, if
/// it is a block quote or a list, are the blocks of the quote's text or of
/// each item's text, to depth `d`.
pub open spec fn nested_ok(b: Block, lv: Seq<Seq<char>>, opts: AstOptions, p: int, d: nat) -> bool
    decreases d, 3nat,
{
    match b {
        Block::BlockQuote { children, .. } => deep_text(children@, quote_text(lv, p, opts.kramdown), opts, d),
        Block::List { items, .. } => forall|j: int|
            0 <= j < items@.len() ==> deep_text(
                (#[trigger] items@[j]).children@,
                item_spec(lv, list_items(lv, p)[j]).0,
                opts,
                d,
            ),
        _ => true,
    }
}

/// `bs` are the blocks parsed from the text `text` with options `opts`,
/// to nesting depth `d`.
pub open spec fn deep_text(bs: Seq<Block>, text: Seq<char>, opts: AstOptions, d: nat) -> bool
    decreases d, 2nat,
{
    exists|s: ParserState<'_>| #[trigger] initial_state(s, text, opts) && deep_blocks(bs, s, d)
}

/// What [`md_to_ast`] returns for `input`, `opts` and `file_name`: the
/// blocks are those parsed one after another from the first line, blank
/// lines between them skipped, and so on inside block quotes and list
/// items, at every depth.
pub open spec fn parsed_document(r: Document, input: Seq<char>, opts: AstOptions, file_name: Option<String>) -> bool {
    &&& r.node_type@ == "root"@
    &&& r.file_name == file_name
    &&& r.pos == doc_span(input)
    &&& r.link_references@.map_values(|d: LinkReferenceDefinition| def_view(d)) == doc_ref_defs(input)
    &&& children_in_order(r.children@, r.pos.end.line)
    &&& forall|d: nat| #[trigger] deep_text(r.children@, input, opts, d)
}

impl Document {
    /// Parse a Markdown string into a [`Document`] with the given options.
    pub fn parse(input: &str, opts: &AstOptions, file_name: Option<String>) -> (r: Self)
        ensures
            parsed_document(r, input@, *opts, file_name),
    {
        md_to_ast(input, opts, file_name)
    }
}

/// Parse a Markdown string into a [`Document`]: first collect every link
/// reference definition (so that reference links resolve anywhere), then
/// parse the blocks one after another, skipping blank lines.
pub fn md_to_ast(input: &str, opts: &AstOptions, file_name: Option<String>) -> (r: Document)
    ensures
        parsed_document(r, input@, *opts, file_name),
    decreases input@.len() + 1, 4nat,
{
    let line_starts = block::compute_line_starts(input);
    let chars = str_to_chars(input);
    let lines = split_lines(&chars);
    crate::text::str_bytes_bound(input);
    proof {
        block::lemma_lines_of(input@);
    }
    let ghost lv = line_views(lines@);
    let ghost ls = line_starts_spec(vstd::utf8::encode_utf8(input@));
    let n = input.len();
    assert(n == utf8_len(input@));
    let mut ref_map = LinkRefMap::new();
    let mut ref_defs: Vec<LinkReferenceDefinition> = Vec::new();
    let mut i: usize = 0;
    while i < lines.len()
        invariant
            i <= lines@.len(),
            lv == line_views(lines@),
            lv == lines_of(input@),
            line_starts@ == ls,
            n == utf8_len(input@),
            forall|k: int| 0 <= k < lv.len() ==> utf8_len(#[trigger] lv[k]) <= utf8_len(input@),
            utf8_len(input@) <= usize::MAX,
            ref_defs@.map_values(|d: LinkReferenceDefinition| def_view(d)) == ref_defs_upto(lv, i as int, ls, n as int),
            ref_map@ == defs_map(ref_defs_upto(lv, i as int, ls, n as int)),
        decreases lines@.len() - i,
    {
        let line = &lines[i];
        assert(lv[i as int] == line@);
        let ghost before = ref_defs@;
        if crate::parsers::lines::link_ref_def_chars(line) {
            match ref_def_line_chars(line, i, &line_starts, n) {
                Some(def) => {
                    let title = match &def.title {
                        Some(t) => Some(t.clone()),
                        None => None,
                    };
                    ref_map.insert(def.label.clone(), (def.url.clone(), title));
                    let ghost dv = def_view(def);
                    ref_defs.push(def);
                    assert(ref_defs@.map_values(|d: LinkReferenceDefinition| def_view(d)) =~= before.map_values(
                        |d: LinkReferenceDefinition| def_view(d),
                    ).push(dv));
                    proof {
                        let u = ref_defs_upto(lv, (i + 1) as int, ls, n as int);
                        assert(u.drop_last() =~= ref_defs_upto(lv, i as int, ls, n as int));
                        assert(u.last() == dv);
                    }
                },
                None => {},
            }
        }
        i += 1;
    }
    let mut p = ParserState::new(input, &lines, &line_starts, opts, file_name.clone(), &ref_map);
    let start = p.position_at(0);
    assert(p.lv() == lv);
    assert forall|k: int| 0 <= k < p.lines@.len() implies utf8_len(#[trigger] p.lines@[k]@) <= usize::MAX by {
        assert(p.lines@[k]@ == lv[k]);
    }
    let ghost p0 = p;
    proof {
        assert(ref_defs_upto(lv, lv.len() as int, ls, n as int) == doc_ref_defs(input@));
        assert(initial_state(p0, input@, *opts));
    }
    let blocks = p.parse_all();
    proof {
        assert forall|d: nat| #[trigger] deep_text(blocks@, input@, *opts, d) by {
            assert(deep_blocks(blocks@, p0, d));
        }
    }
    let last = if p.pos < lines.len() { p.pos } else { lines.len() };
    let end = p.position_at(last);
    Document {
        node_type: String::from_str("root"),
        pos: Span::new(start, end),
        file_name,
        children: blocks,
        link_references: ref_defs,
    }
}

} // verus!
