//! Block-level Markdown parser.
//!
//! Turns the lines of a Markdown source into [`Block`] nodes: ATX headings,
//! fenced and indented code, block quotes, lists (with GFM task markers),
//! thematic breaks, HTML blocks and comments, GFM tables, link reference
//! definitions and Kramdown block attributes.
//!
//! [`ParserState`] holds the cursor (a line index) and the shared context;
//! [`md_to_ast`](super::md_to_ast) drives it over a whole document.

use crate::options::AstOptions;
use crate::parsers::atters::{attr_model, parse_attrs_chars, parse_attrs_spec, slice_vec, AttrModel};
use super::{deep_blocks, nested_ok, quote_text, deep_text};
use crate::parsers::inline::{
    opt_view, arrow_at, lemma_window_from, parse_inline_with_refs, plain_text, text_node, window_from, toks_of, scan, refs_view,
    LinkRefMap,
};
use crate::parsers::lines::{
    fence_line, heading_level, heading_level_of, is_fence, is_heading, is_html_block_start,
    is_kramdown_attr_line, kramdown_attr_line, html_block_start, link_ref_def_chars,
    link_ref_def_line, list_marker_chars, list_marker_line, ref_def_parts, ref_def_parts_chars,
    thematic_break_chars, thematic_break_line,
};
use crate::parsers::table::{
    alignments_chars, build_table_chars, row_cells, row_ok, row_pieces, alignment_of, table_start_chars,
    table_start_spec,
};
use crate::text::{
    all_ws, count_run, is_blank, lead_ws, lemma_lead_ws_bound, lemma_utf8_len_sub, push_char,
    push_chars, run_len, skip_ws, starts_with, starts_with_at, str_to_chars, trim, trim_bounds,
    trim_start, utf8_len,
};
use crate::tokens::attrs::{join, Attributes};
use crate::tokens::span::{Position, Span};
use crate::tokens::token::{Block, LinkReferenceDefinition, ListItem};
use vstd::prelude::*;

verus! {

// ---------------------------------------------------------------------------
// Lines and line starts
// ---------------------------------------------------------------------------

/// Byte offsets of the line starts of the UTF-8 bytes `b`: 0, then one past
/// every `\n`.
pub open spec fn line_starts_spec(b: Seq<u8>) -> Seq<usize>
    decreases b.len(),
{
    if b.len() == 0 {
        seq![0usize]
    } else {
        let p = line_starts_spec(b.drop_last());
        if b.last() == 10u8 {
            p.push(b.len() as usize)
        } else {
            p
        }
    }
}

pub proof fn lemma_line_starts_nonempty(b: Seq<u8>)
    ensures
        line_starts_spec(b).len() >= 1,
    decreases b.len(),
{
    if b.len() > 0 {
        lemma_line_starts_nonempty(b.drop_last());
    }
}

/// Compute the byte offset of the start of each line: 0, then the byte
/// after every `\n`.
pub fn compute_line_starts(input: &str) -> (r: Vec<usize>)
    ensures
        r@ == line_starts_spec(vstd::utf8::encode_utf8(input@)),
        r@.len() >= 1,
{
    let b = input.as_bytes();
    let mut starts: Vec<usize> = Vec::new();
    starts.push(0);
    let mut i: usize = 0;
    assert(b@.take(0) =~= Seq::<u8>::empty());
    while i < b.len()
        invariant
            i <= b@.len(),
            starts@ == line_starts_spec(b@.take(i as int)),
        decreases b@.len() - i,
    {
        if b[i] == 10u8 {
            starts.push(i + 1);
        }
        i += 1;
        assert(b@.take(i as int).drop_last() =~= b@.take(i - 1));
    }
    assert(b@.take(b@.len() as int) =~= b@);
    proof {
        lemma_line_starts_nonempty(b@);
    }
    starts
}

/// The characters of each line, as sequences.
pub open spec fn line_views(v: Seq<Vec<char>>) -> Seq<Seq<char>> {
    v.map_values(|l: Vec<char>| l@)
}

/// The characters of all lines, each counted with one separator.
pub open spec fn line_total(v: Seq<Seq<char>>) -> nat
    decreases v.len(),
{
    if v.len() == 0 {
        0
    } else {
        line_total(v.drop_last()) + v.last().len() + 1
    }
}

pub proof fn lemma_line_total_append(a: Seq<Seq<char>>, b: Seq<Seq<char>>)
    ensures
        line_total(a + b) == line_total(a) + line_total(b),
    decreases b.len(),
{
    if b.len() > 0 {
        assert((a + b).drop_last() =~= a + b.drop_last());
        lemma_line_total_append(a, b.drop_last());
    } else {
        assert(a + b =~= a);
    }
}

pub proof fn lemma_line_total_step(v: Seq<Seq<char>>, a: int, b: int)
    requires
        0 <= a <= b < v.len(),
    ensures
        line_total(v.subrange(a, b + 1)) == line_total(v.subrange(a, b)) + v[b].len() + 1,
{
    assert(v.subrange(a, b + 1).drop_last() =~= v.subrange(a, b));
    assert(v.subrange(a, b + 1).last() == v[b]);
}

pub proof fn lemma_line_total_sub(v: Seq<Seq<char>>, a: int, b: int)
    requires
        0 <= a <= b <= v.len(),
    ensures
        line_total(v.subrange(a, b)) <= line_total(v),
{
    lemma_line_total_append(v.take(a), v.subrange(a, b));
    lemma_line_total_append(v.take(b), v.skip(b));
    assert(v.take(a) + v.subrange(a, b) =~= v.take(b));
    assert(v.take(b) + v.skip(b) =~= v);
}

/// Facts about `lines_of`: no more lines than characters, each line no
/// longer (in UTF-8) than the text, and the lines with one separator each
/// no longer than the text plus one.
pub proof fn lemma_lines_of(s: Seq<char>)
    ensures
        crate::text::lines_of(s).len() <= s.len(),
        forall|i: int|
            0 <= i < crate::text::lines_of(s).len() ==> utf8_len(#[trigger] crate::text::lines_of(s)[i])
                <= utf8_len(s),
        line_total(crate::text::lines_of(s)) <= s.len() + 1,
    decreases s.len(),
{
    let ls = crate::text::lines_of(s);
    if s.len() > 0 {
        let k = crate::text::index_of(s, '\n');
        crate::text::lemma_index_of_from(s, 0, '\n');
        if 0 <= k < s.len() {
            let first = crate::text::strip_cr(s.take(k));
            let rest = s.skip(k + 1);
            lemma_lines_of(rest);
            let lr = crate::text::lines_of(rest);
            assert(ls == seq![first] + lr);
            lemma_utf8_len_sub(s, 0, k);
            assert(s.take(k) =~= s.subrange(0, k));
            if k > 0 && s.take(k).last() == '\r' {
                lemma_utf8_len_sub(s.take(k), 0, k - 1);
                assert(s.take(k).drop_last() =~= s.take(k).subrange(0, k - 1));
            }
            assert(utf8_len(first) <= utf8_len(s));
            lemma_utf8_len_sub(s, k + 1, s.len() as int);
            assert(rest =~= s.subrange(k + 1, s.len() as int));
            assert forall|i: int| 0 <= i < ls.len() implies utf8_len(#[trigger] ls[i]) <= utf8_len(s) by {
                if i > 0 {
                    assert(ls[i] == lr[i - 1]);
                }
            }
            lemma_line_total_append(seq![first], lr);
            assert(seq![first].drop_last() =~= Seq::<Seq<char>>::empty());
            assert(line_total(Seq::<Seq<char>>::empty()) == 0);
            assert(line_total(seq![first]) == first.len() + 1);
            assert(first.len() <= k);
        } else {
            assert(ls == seq![s]);
            assert(seq![s].drop_last() =~= Seq::<Seq<char>>::empty());
            assert(line_total(Seq::<Seq<char>>::empty()) == 0);
            assert(line_total(seq![s]) == s.len() + 1);
        }
    }
}

/// Split `s` into its lines (`str::lines`).
pub fn split_lines(s: &[char]) -> (r: Vec<Vec<char>>)
    ensures
        line_views(r@) == crate::text::lines_of(s@),
{
    let n = s.len();
    let mut out: Vec<Vec<char>> = Vec::new();
    let mut i: usize = 0;
    assert(s@.skip(0) =~= s@);
    while i < n
        invariant
            i <= n == s@.len(),
            line_views(out@) + crate::text::lines_of(s@.skip(i as int)) == crate::text::lines_of(s@),
        decreases n - i,
    {
        let k = crate::text::find_char(s, i, n, '\n');
        let ghost t = s@.skip(i as int);
        assert(s@.subrange(i as int, n as int) =~= t);
        proof {
            crate::text::lemma_index_of_from(t, 0, '\n');
        }
        let ghost prev = line_views(out@);
        if k < n {
            let mut e = k;
            if e > i && s[e - 1] == '\r' {
                e = e - 1;
            }
            let line = slice_vec(s, i, e);
            out.push(line);
            proof {
                assert(t.take(k - i) =~= s@.subrange(i as int, k as int));
                assert(line@ == crate::text::strip_cr(t.take(k - i)));
                assert(t.skip(k - i + 1) =~= s@.skip(k + 1));
                assert(crate::text::lines_of(t) == seq![line@] + crate::text::lines_of(s@.skip(k + 1)));
                assert(line_views(out@) =~= prev.push(line@));
                assert(prev.push(line@) + crate::text::lines_of(s@.skip(k + 1)) =~= prev + (seq![line@]
                    + crate::text::lines_of(s@.skip(k + 1))));
            }
            i = k + 1;
        } else {
            let line = slice_vec(s, i, n);
            out.push(line);
            proof {
                assert(crate::text::lines_of(t) == seq![t]);
                assert(line@ =~= t);
                assert(s@.skip(n as int) =~= Seq::<char>::empty());
                assert(line_views(out@) =~= prev.push(line@));
                assert(prev + seq![t] =~= prev.push(t));
                assert(prev.push(t) + crate::text::lines_of(Seq::<char>::empty()) =~= prev.push(t));
            }
            i = n;
        }
    }
    assert(s@.skip(n as int) =~= Seq::<char>::empty());
    assert(line_views(out@) + Seq::<Seq<char>>::empty() =~= line_views(out@));
    out
}

/// The position at the start of line `line`: the line index capped at the
/// last line start, column 0, and the line's byte offset capped at `n`.
pub open spec fn pos_at(ls: Seq<usize>, n: int, line: int) -> Position {
    let l = if line < ls.len() - 1 { line } else { ls.len() - 1 };
    Position { line: l as usize, column: 0, offset: (if ls[l] < n { ls[l] as int } else { n }) as usize }
}

/// The first line at or after `i` that is not blank (or `i` past the end).
pub open spec fn next_nonblank(lines: Seq<Seq<char>>, i: int) -> int
    decreases lines.len() - i,
{
    if 0 <= i < lines.len() && all_ws(lines[i]) {
        next_nonblank(lines, i + 1)
    } else {
        i
    }
}

pub proof fn lemma_next_nonblank(lines: Seq<Seq<char>>, i: int)
    requires
        0 <= i,
    ensures
        i <= next_nonblank(lines, i),
        i <= lines.len() ==> next_nonblank(lines, i) <= lines.len(),
        next_nonblank(lines, i) < lines.len() ==> !all_ws(lines[next_nonblank(lines, i)]),
        forall|k: int| i <= k < next_nonblank(lines, i) ==> all_ws(#[trigger] lines[k]),
    decreases lines.len() - i,
{
    if i < lines.len() && all_ws(lines[i]) {
        lemma_next_nonblank(lines, i + 1);
    }
}

/// The trailing Kramdown attribute block after line `pos`: when Kramdown is
/// on and the first non-blank line from `pos` is `{...}` holding a valid
/// attribute block, its model and the line after it.
pub open spec fn trailing_attrs_spec(lines: Seq<Seq<char>>, pos: int, kramdown: bool) -> Option<(AttrModel, int)> {
    let peek = next_nonblank(lines, pos);
    if kramdown && 0 <= peek < lines.len() && kramdown_attr_line(lines[peek]) && parse_attrs_spec(
        trim(lines[peek]),
    ) is Some {
        Some((parse_attrs_spec(trim(lines[peek]))->Some_0.0, peek + 1))
    } else {
        None
    }
}

/// The line position after the trailing attributes (if any).
pub open spec fn after_attrs(lines: Seq<Seq<char>>, pos: int, kramdown: bool) -> int {
    match trailing_attrs_spec(lines, pos, kramdown) {
        Some((_, p)) => p,
        None => pos,
    }
}

/// `a` is the attribute value found after line `pos`.
pub open spec fn attrs_match(a: Option<Attributes>, lines: Seq<Seq<char>>, pos: int, kramdown: bool) -> bool {
    match (a, trailing_attrs_spec(lines, pos, kramdown)) {
        (Some(x), Some((m, _))) => attr_model(x) == m,
        (None, None) => true,
        _ => false,
    }
}

/// `children` are the inline nodes of `text` under the given options and
/// reference definitions.
#[verifier::opaque]
pub open spec fn inline_of(
    children: Seq<crate::tokens::token::Inline>,
    text: Seq<char>,
    gfm: bool,
    refs: &LinkRefMap,
) -> bool {
    &&& toks_of(children) == scan(text, 0, Seq::empty(), gfm, refs_view(Some(refs)))
    &&& plain_text(text, gfm) && text.len() == 0 ==> children.len() == 0
    &&& plain_text(text, gfm) && text.len() > 0 ==> children.len() == 1 && text_node(children[0], text)
}

/// Lines joined by `\n`.
pub open spec fn nl_join(parts: Seq<Seq<char>>) -> Seq<char> {
    join(parts, seq!['\n'])
}

/// Append `piece[from..to]` to `out` as one more `\n`-joined part.
fn append_joined(out: &mut String, parts: Ghost<Seq<Seq<char>>>, first: bool, piece: &[char], from: usize, to: usize)
    requires
        from <= to <= piece@.len(),
        old(out)@ == nl_join(parts@),
        first == (parts@.len() == 0),
    ensures
        final(out)@ == nl_join(parts@.push(piece@.subrange(from as int, to as int))),
        final(out)@.len() == old(out)@.len() + (if first { 0int } else { 1int }) + (to - from),
{
    let ghost x = piece@.subrange(from as int, to as int);
    if !first {
        push_char(out, '\n');
    }
    push_chars(out, piece, from, to);
    proof {
        let q = parts@.push(x);
        assert(q.drop_last() =~= parts@);
        if first {
            assert(old(out)@ =~= Seq::<char>::empty());
            assert(final(out)@ =~= x);
        }
    }
}

/// The first line at or after `from` that is not blank.
fn find_nonblank(lines: &[Vec<char>], from: usize) -> (k: usize)
    ensures
        k == next_nonblank(line_views(lines@), from as int),
{
    let ghost lv = line_views(lines@);
    let mut k = from;
    while k < lines.len()
        invariant
            from <= k,
            lv == line_views(lines@),
            next_nonblank(lv, k as int) == next_nonblank(lv, from as int),
        decreases lines@.len() - k,
    {
        let l = &lines[k];
        assert(l@.subrange(0, l@.len() as int) =~= lv[k as int]);
        if !is_blank(l, 0, l.len()) {
            return k;
        }
        k += 1;
    }
    k
}

// ---------------------------------------------------------------------------
// Parser state
// ---------------------------------------------------------------------------

/// Parser state for block-level parsing: the source text, its lines and
/// line starts, the cursor (a line index), the options, and the link
/// reference definitions collected beforehand.
pub struct ParserState<'a> {
    /// The full source text.
    pub input: &'a str,
    /// The characters of each line of the source text.
    pub lines: &'a [Vec<char>],
    /// Byte offset of the start of each line.
    pub line_starts: &'a [usize],
    /// Current line index (0-based).
    pub pos: usize,
    /// Parser options.
    pub opts: &'a AstOptions,
    /// Optional file name.
    pub file_name: Option<String>,
    /// Link reference definitions collected beforehand.
    pub refs: &'a LinkRefMap,
}

impl<'a> ParserState<'a> {
    /// The lines as character sequences.
    pub open spec fn lv(&self) -> Seq<Seq<char>> {
        line_views(self.lines@)
    }

    /// The position at the start of line `line`.
    pub open spec fn pos_spec(&self, line: int) -> Position {
        pos_at(self.line_starts@, utf8_len(self.input@) as int, line)
    }

    /// The span of lines `[from, to)`.
    pub open spec fn span_spec(&self, from: int, to: int) -> Span {
        Span { start: self.pos_spec(from), end: self.pos_spec(to) }
    }

    /// There is a line start, and every line fits in memory as UTF-8.
    pub open spec fn wf(&self) -> bool {
        &&& self.line_starts@.len() >= 1
        &&& forall|i: int| 0 <= i < self.lines@.len() ==> utf8_len(#[trigger] self.lines@[i]@) <= usize::MAX
    }

    /// `other` is this state with only the cursor moved.
    pub open spec fn same_ctx(&self, other: &Self) -> bool {
        &&& self.input == other.input
        &&& self.lines == other.lines
        &&& self.line_starts == other.line_starts
        &&& self.opts == other.opts
        &&& self.file_name == other.file_name
        &&& self.refs == other.refs
    }

    /// Create a new state at line 0.
    pub fn new(
        input: &'a str,
        lines: &'a [Vec<char>],
        line_starts: &'a [usize],
        opts: &'a AstOptions,
        file_name: Option<String>,
        refs: &'a LinkRefMap,
    ) -> (r: Self)
        ensures
            r.input == input,
            r.lines == lines,
            r.line_starts == line_starts,
            r.pos == 0,
            r.opts == opts,
            r.file_name == file_name,
            r.refs == refs,
    {
        ParserState { input, lines, line_starts, pos: 0, opts, file_name, refs }
    }

    /// Whether all lines have been consumed.
    pub fn is_done(&self) -> (b: bool)
        ensures
            b == (self.pos >= self.lines@.len()),
    {
        self.pos >= self.lines.len()
    }

    /// The current line, or `None` at the end.
    pub fn current(&self) -> (r: Option<&'a Vec<char>>)
        ensures
            match r {
                Some(l) => self.pos < self.lines@.len() && *l == self.lines@[self.pos as int],
                None => self.pos >= self.lines@.len(),
            },
    {
        let lines: &'a [Vec<char>] = self.lines;
        if self.pos < lines.len() {
            Some(&lines[self.pos])
        } else {
            None
        }
    }

    /// Move to the next line.
    pub fn advance(&mut self)
        requires
            old(self).pos < usize::MAX,
        ensures
            final(self).pos == old(self).pos + 1,
            final(self).same_ctx(old(self)),
    {
        self.pos = self.pos + 1;
    }

    /// The position at the start of line `line`.
    pub fn position_at(&self, line: usize) -> (r: Position)
        requires
            self.line_starts@.len() >= 1,
        ensures
            r == self.pos_spec(line as int),
    {
        crate::text::str_bytes_bound(self.input);
        let last = self.line_starts.len() - 1;
        let l = if line < last { line } else { last };
        let n = self.input.len();
        let s = self.line_starts[l];
        let offset = if s < n { s } else { n };
        Position { line: l, column: 0, offset }
    }

    /// The span covering lines `[from, to)`.
    pub fn span(&self, from: usize, to: usize) -> (r: Span)
        requires
            self.line_starts@.len() >= 1,
        ensures
            r == self.span_spec(from as int, to as int),
    {
        Span::new(self.position_at(from), self.position_at(to))
    }

    /// Skip blank lines; whether at least one was skipped.
    pub fn skip_blank_lines(&mut self) -> (b: bool)
        ensures
            final(self).same_ctx(old(self)),
            final(self).pos == next_nonblank(old(self).lv(), old(self).pos as int),
            b == (final(self).pos > old(self).pos),
    {
        let start = self.pos;
        proof {
            lemma_next_nonblank(self.lv(), self.pos as int);
        }
        while self.pos < self.lines.len() && is_blank(&self.lines[self.pos], 0, self.lines[self.pos].len())
            invariant
                self.same_ctx(old(self)),
                start <= self.pos,
                start == old(self).pos,
                next_nonblank(self.lv(), self.pos as int) == next_nonblank(old(self).lv(), start as int),
            decreases self.lines@.len() - self.pos,
        {
            proof {
                assert(self.lines@[self.pos as int]@.subrange(0, self.lines@[self.pos as int]@.len() as int)
                    =~= self.lv()[self.pos as int]);
            }
            self.pos = self.pos + 1;
        }
        proof {
            if self.pos < self.lines@.len() {
                assert(self.lines@[self.pos as int]@.subrange(0, self.lines@[self.pos as int]@.len() as int)
                    =~= self.lv()[self.pos as int]);
            }
        }
        self.pos > start
    }

    /// The line at `i` is blank.
    fn blank_at(&self, i: usize) -> (b: bool)
        requires
            i < self.lines@.len(),
        ensures
            b == all_ws(self.lv()[i as int]),
    {
        let l = &self.lines[i];
        assert(l@.subrange(0, l@.len() as int) =~= l@);
        is_blank(l, 0, l.len())
    }

    /// After a block, a Kramdown attribute line `{...}` (possibly after
    /// blank lines) applies to that block and is consumed.
    fn try_trailing_attrs(&mut self) -> (r: Option<Attributes>)
        ensures
            final(self).same_ctx(old(self)),
            attrs_match(r, old(self).lv(), old(self).pos as int, old(self).opts.kramdown),
            final(self).pos == after_attrs(old(self).lv(), old(self).pos as int, old(self).opts.kramdown),
    {
        if !self.opts.kramdown {
            return None;
        }
        let ghost lv = self.lv();
        let lines = self.lines;
        let peek = find_nonblank(lines, self.pos);
        if peek < lines.len() {
            let line = &lines[peek];
            let (a, b) = trim_bounds(line, 0, line.len());
            assert(line@.subrange(0, line@.len() as int) =~= lv[peek as int]);
            let t = slice_vec(line, a, b);
            if t.len() > 0 && t[0] == '{' && t[t.len() - 1] == '}' {
                match parse_attrs_chars(&t) {
                    Some((attrs, _)) => {
                        self.pos = peek + 1;
                        return Some(attrs);
                    },
                    None => {},
                }
            }
        }
        None
    }

    /// An ATX heading `# ...` at the current line.
    fn try_heading(&mut self) -> (r: Option<Block>)
        requires
            old(self).wf(),
        ensures
            final(self).same_ctx(old(self)),
            heading_result(r, *old(self), *final(self)),
            moves_on(r, *old(self), *final(self)),
            r is Some <==> (old(self).pos < old(self).lines@.len() && heading_level(old(self).lv()[old(self).pos as int]) > 0),
            r is None ==> final(self).pos == old(self).pos,
    {
        proof {
            reveal(heading_result);
            reveal(inline_of);
        }
        if self.pos >= self.lines.len() {
            return None;
        }
        let start_line = self.pos;
        let line = &self.lines[start_line];
        let h = heading_level_of(line);
        if h == 0 {
            return None;
        }
        let s0 = skip_ws(line, 0, line.len());
        assert(line@.subrange(0, line@.len() as int) =~= line@);
        assert(line@.subrange(s0 as int, line@.len() as int) =~= trim_start(line@));
        proof {
            crate::parsers::inline::lemma_run_len_bound(trim_start(line@), 0, '#');
        }
        let (a, b) = trim_bounds(line, s0 + h, line.len());
        let mut text = String::new();
        push_chars(&mut text, line, a, b);
        proof {
            assert(trim_start(line@).skip(h as int) =~= line@.subrange(s0 + h, line@.len() as int));
        }
        self.pos = self.pos + 1;
        proof {
            lemma_after_attrs(self.lv(), self.pos as int, self.opts.kramdown);
        }
        let attrs = self.try_trailing_attrs();
        let children = parse_inline_with_refs(text.as_str(), Some(self.opts), Some(self.refs));
        let level = h as u8;
        let pos = self.span(start_line, self.pos);
        Some(Block::Heading { level, children, attrs, pos })
    }
}

/// A block parser that returns a block moved the cursor forward (past
/// the line when it is not blank, never past the end), and the block's
/// span starts at the old cursor and ends no later than the new one.
pub open spec fn moves_on(r: Option<Block>, s0: ParserState<'_>, s1: ParserState<'_>) -> bool {
    let lv = s0.lv();
    let p = s0.pos as int;
    match r {
        Some(b) => p < lv.len() && p <= s1.pos <= lv.len() && (!all_ws(lv[p]) ==> s1.pos > p) && b.span().start
            == s0.pos_spec(p) && s0.pos_spec(p).line <= b.span().end.line && b.span().end.line <= s0.pos_spec(
            s1.pos as int,
        ).line,
        None => true,
    }
}

/// The text of a heading line: after the hashes, trimmed.
pub open spec fn heading_text(line: Seq<char>) -> Seq<char> {
    trim(trim_start(line).skip(heading_level(line) as int))
}

/// `try_heading`'s result from state `s0` to state `s1`.
#[verifier::opaque]
pub open spec fn heading_result(r: Option<Block>, s0: ParserState<'_>, s1: ParserState<'_>) -> bool {
    let lv = s0.lv();
    let p = s0.pos as int;
    if p < lv.len() && heading_level(lv[p]) > 0 {
        &&& s1.pos == after_attrs(lv, p + 1, s0.opts.kramdown)
        &&& r matches Some(Block::Heading { level, children, attrs, pos }) && level == heading_level(lv[p])
            && attrs_match(attrs, lv, p + 1, s0.opts.kramdown) && pos == s0.span_spec(p, s1.pos as int)
            && inline_of(children@, heading_text(lv[p]), s0.opts.gfm, s0.refs)
    } else {
        r is None && s1.pos == s0.pos
    }
}

// ---------------------------------------------------------------------------
// Specifications of the block constructs
// ---------------------------------------------------------------------------

/// The fence character of a fence line.
pub open spec fn fence_char(line: Seq<char>) -> char {
    trim_start(line)[0]
}

/// The length of the opening fence.
pub open spec fn fence_len(line: Seq<char>) -> nat {
    run_len(trim_start(line), 0, fence_char(line))
}

/// `l` closes a fence of `n` characters `c`.
pub open spec fn closes_fence(l: Seq<char>, c: char, n: nat) -> bool {
    run_len(trim_start(l), 0, c) >= n
}

/// The first line at or after `i` closing the fence, or the end.
pub open spec fn fence_end(lines: Seq<Seq<char>>, i: int, c: char, n: nat) -> int
    decreases lines.len() - i,
{
    if 0 <= i < lines.len() && !closes_fence(lines[i], c, n) {
        fence_end(lines, i + 1, c, n)
    } else {
        i
    }
}

/// The info string of a fence line, as a language hint.
pub open spec fn fence_lang(line: Seq<char>) -> Option<Seq<char>> {
    let info = trim(trim_start(line).skip(fence_len(line) as int));
    if info.len() == 0 {
        None
    } else {
        Some(info)
    }
}

/// The first blank line at or after `i`, or the end.
pub open spec fn next_blank(lines: Seq<Seq<char>>, i: int) -> int
    decreases lines.len() - i,
{
    if 0 <= i < lines.len() && !all_ws(lines[i]) {
        next_blank(lines, i + 1)
    } else {
        i
    }
}

/// The line starts an indented code block: four spaces or a tab.
pub open spec fn indented(l: Seq<char>) -> bool {
    starts_with(l, seq![' ', ' ', ' ', ' ']) || starts_with(l, seq!['\t'])
}

/// Where an indented code block starting at or continuing from `i` ends:
/// blank lines belong to it only when an indented line follows.
pub open spec fn indent_end(lines: Seq<Seq<char>>, i: int) -> int
    decreases lines.len() - i,
{
    if i < 0 || i >= lines.len() {
        i
    } else if all_ws(lines[i]) {
        if i + 1 < lines.len() && indented(lines[i + 1]) {
            indent_end(lines, i + 1)
        } else {
            i
        }
    } else if indented(lines[i]) {
        indent_end(lines, i + 1)
    } else {
        i
    }
}

/// A line of an indented code block without its indentation.
pub open spec fn indent_piece(l: Seq<char>) -> Seq<char> {
    if all_ws(l) {
        Seq::empty()
    } else if starts_with(l, seq![' ', ' ', ' ', ' ']) {
        l.skip(4)
    } else {
        l.skip(1)
    }
}

/// The first line at or after `i` holding `-->`, plus one; or the end.
pub open spec fn comment_end(lines: Seq<Seq<char>>, i: int) -> int
    decreases lines.len() - i,
{
    if i < 0 || i >= lines.len() {
        i
    } else if window_from(lines[i], 0) >= 0 {
        i + 1
    } else {
        comment_end(lines, i + 1)
    }
}

/// The lines joined by `\n`, with a final `\n` when there is a line.
pub open spec fn nl_terminated(parts: Seq<Seq<char>>) -> Seq<char> {
    if parts.len() == 0 {
        Seq::empty()
    } else {
        nl_join(parts).push('\n')
    }
}

/// The line contains a `|`.
pub open spec fn has_pipe(l: Seq<char>) -> bool {
    crate::text::has_char(l, '|')
}

/// The first line at or after `i` that is blank or has no `|`, or the end.
pub open spec fn table_body_end(lines: Seq<Seq<char>>, i: int) -> int
    decreases lines.len() - i,
{
    if 0 <= i < lines.len() && !all_ws(lines[i]) && has_pipe(lines[i]) {
        table_body_end(lines, i + 1)
    } else {
        i
    }
}

/// Line `i` ends a paragraph before it.
pub open spec fn para_stop(lines: Seq<Seq<char>>, i: int, gfm: bool, kramdown: bool) -> bool {
    let l = lines[i];
    ||| all_ws(l)
    ||| thematic_break_line(l)
    ||| heading_level(l) > 0
    ||| fence_line(l)
    ||| starts_with(trim_start(l), seq!['>'])
    ||| list_marker_line(l)
    ||| html_block_start(l)
    ||| link_ref_def_line(l)
    ||| (gfm && table_start_spec(lines, i))
    ||| (kramdown && kramdown_attr_line(l))
}

/// The first line at or after `i` that ends the paragraph, or the end.
pub open spec fn para_end(lines: Seq<Seq<char>>, i: int, gfm: bool, kramdown: bool) -> int
    decreases lines.len() - i,
{
    if 0 <= i < lines.len() && !para_stop(lines, i, gfm, kramdown) {
        para_end(lines, i + 1, gfm, kramdown)
    } else {
        i
    }
}

/// A line that ends a list item when it is not indented enough.
pub open spec fn item_stop(l: Seq<char>) -> bool {
    ||| list_marker_line(l)
    ||| heading_level(l) > 0
    ||| fence_line(l)
    ||| thematic_break_line(l)
    ||| starts_with(trim_start(l), seq!['>'])
    ||| kramdown_attr_line(l)
}

/// The continuation text of a list item from line `i` on (each line with a
/// `\n`), and the number of lines it takes.  `indent` is the byte width of
/// the item's marker and the spaces after it.
pub open spec fn item_rest(lines: Seq<Seq<char>>, i: int, indent: nat) -> (Seq<char>, nat)
    decreases lines.len() - i,
{
    if i < 0 || i >= lines.len() {
        (Seq::empty(), 0)
    } else {
        let l = lines[i];
        if all_ws(l) {
            let r = item_rest(lines, i + 1, indent);
            (seq!['\n'] + r.0, r.1 + 1)
        } else if run_len(l, 0, ' ') >= indent {
            let r = item_rest(lines, i + 1, indent);
            (l.skip(indent as int).push('\n') + r.0, r.1 + 1)
        } else if item_stop(l) {
            (Seq::empty(), 0)
        } else {
            let r = item_rest(lines, i + 1, indent);
            (l.push('\n') + r.0, r.1 + 1)
        }
    }
}

/// Characters of the list marker of a trimmed list line.
pub open spec fn marker_len(t: Seq<char>) -> int {
    if t.len() > 0 && (t[0] == '-' || t[0] == '*' || t[0] == '+') {
        1
    } else {
        crate::parsers::lines::digit_run(t, 0) + 1int
    }
}

/// Index of the first content character of a list line.
pub open spec fn item_content_start(first: Seq<char>) -> int {
    let me = lead_ws(first) + marker_len(trim_start(first));
    me + lead_ws(first.skip(me))
}

/// Byte width of the marker and the whitespace after it.
pub open spec fn item_indent(first: Seq<char>) -> nat {
    utf8_len(first.subrange(lead_ws(first) as int, item_content_start(first)))
}

/// The text of the list item starting at line `start` and the number of
/// lines it takes.
pub open spec fn item_spec(lines: Seq<Seq<char>>, start: int) -> (Seq<char>, nat) {
    let first = lines[start];
    let r = item_rest(lines, start + 1, item_indent(first));
    ((first.skip(item_content_start(first)).push('\n') + r.0).drop_last(), r.1 + 1)
}

// ---------------------------------------------------------------------------
// Line scanning helpers
// ---------------------------------------------------------------------------

/// `lines[from..to]` joined by `\n`.
fn join_lines(lines: &[Vec<char>], from: usize, to: usize) -> (r: String)
    requires
        from <= to <= lines@.len(),
    ensures
        r@ == nl_join(line_views(lines@).subrange(from as int, to as int)),
{
    let ghost lv = line_views(lines@);
    let mut out = String::new();
    let mut i = from;
    assert(lv.subrange(from as int, from as int) =~= Seq::<Seq<char>>::empty());
    while i < to
        invariant
            from <= i <= to <= lines@.len(),
            lv == line_views(lines@),
            out@ == nl_join(lv.subrange(from as int, i as int)),
        decreases to - i,
    {
        let l = &lines[i];
        append_joined(&mut out, Ghost(lv.subrange(from as int, i as int)), i == from, l, 0, l.len());
        assert(l@.subrange(0, l@.len() as int) =~= lv[i as int]);
        assert(lv.subrange(from as int, i as int).push(lv[i as int]) =~= lv.subrange(from as int, i + 1));
        i += 1;
    }
    out
}

/// Whether `l` closes a fence of `n` characters `c`.
fn fence_closes(l: &Vec<char>, c: char, n: usize) -> (b: bool)
    ensures
        b == closes_fence(l@, c, n as nat),
{
    let a = skip_ws(l, 0, l.len());
    assert(l@.subrange(0, l@.len() as int) =~= l@);
    let k = count_run(l, a, c);
    proof {
        crate::parsers::lines::lemma_run_len_shift(l@, a as int, 0, c);
    }
    k >= n
}

/// `fence_end` from `from`.
fn find_fence_end(lines: &[Vec<char>], from: usize, c: char, n: usize) -> (k: usize)
    ensures
        k == fence_end(line_views(lines@), from as int, c, n as nat),
{
    let ghost lv = line_views(lines@);
    let mut k = from;
    while k < lines.len() && !fence_closes(&lines[k], c, n)
        invariant
            from <= k,
            lv == line_views(lines@),
            fence_end(lv, k as int, c, n as nat) == fence_end(lv, from as int, c, n as nat),
        decreases lines@.len() - k,
    {
        k += 1;
    }
    k
}

/// `next_blank` from `from`.
fn find_blank(lines: &[Vec<char>], from: usize) -> (k: usize)
    ensures
        k == next_blank(line_views(lines@), from as int),
{
    let ghost lv = line_views(lines@);
    let mut k = from;
    while k < lines.len() && !blank_line(&lines[k])
        invariant
            from <= k,
            lv == line_views(lines@),
            next_blank(lv, k as int) == next_blank(lv, from as int),
        decreases lines@.len() - k,
    {
        k += 1;
    }
    k
}

/// Whether the line is blank.
fn blank_line(l: &Vec<char>) -> (b: bool)
    ensures
        b == all_ws(l@),
{
    assert(l@.subrange(0, l@.len() as int) =~= l@);
    is_blank(l, 0, l.len())
}

/// Whether the line starts with four spaces or a tab.
fn is_indented(l: &Vec<char>) -> (b: bool)
    ensures
        b == indented(l@),
{
    let four = l.len() >= 4 && l[0] == ' ' && l[1] == ' ' && l[2] == ' ' && l[3] == ' ';
    let tab = l.len() >= 1 && l[0] == '\t';
    proof {
        let p4 = seq![' ', ' ', ' ', ' '];
        if starts_with(l@, p4) {
            assert(l@[0] == p4[0] && l@[1] == p4[1] && l@[2] == p4[2] && l@[3] == p4[3]);
        }
        if starts_with(l@, seq!['\t']) {
            assert(l@[0] == seq!['\t'][0]);
        }
    }
    four || tab
}

/// `indent_end` from `from`.
fn find_indent_end(lines: &[Vec<char>], from: usize) -> (k: usize)
    ensures
        k == indent_end(line_views(lines@), from as int),
{
    let ghost lv = line_views(lines@);
    let mut k = from;
    let mut done = false;
    while k < lines.len() && !done
        invariant
            from <= k,
            lv == line_views(lines@),
            done ==> indent_end(lv, k as int) == k,
            indent_end(lv, k as int) == indent_end(lv, from as int),
        decreases lines@.len() - k, if done { 0int } else { 1int },
    {
        if blank_line(&lines[k]) {
            if k + 1 < lines.len() && is_indented(&lines[k + 1]) {
                k += 1;
            } else {
                done = true;
            }
        } else if is_indented(&lines[k]) {
            k += 1;
        } else {
            done = true;
        }
    }
    k
}

/// Whether the line holds `-->`.
fn has_arrow(l: &Vec<char>) -> (b: bool)
    ensures
        b == (window_from(l@, 0) >= 0),
{
    let n = l.len();
    let mut k: usize = 0;
    proof {
        lemma_window_from(l@, 0);
    }
    while k < n && n - k >= 3
        invariant
            k <= n == l@.len(),
            window_from(l@, 0) == window_from(l@, k as int),
        decreases n - k,
    {
        if l[k] == '-' && l[k + 1] == '-' && l[k + 2] == '>' {
            assert(arrow_at(l@, k as int));
            return true;
        }
        k += 1;
    }
    false
}

/// `comment_end` from `from`.
fn find_comment_end(lines: &[Vec<char>], from: usize) -> (k: usize)
    ensures
        k == comment_end(line_views(lines@), from as int),
{
    let ghost lv = line_views(lines@);
    let mut k = from;
    while k < lines.len()
        invariant
            from <= k,
            lv == line_views(lines@),
            comment_end(lv, k as int) == comment_end(lv, from as int),
        decreases lines@.len() - k,
    {
        if has_arrow(&lines[k]) {
            return k + 1;
        }
        k += 1;
    }
    k
}

/// `table_body_end` from `from`.
fn find_table_body_end(lines: &[Vec<char>], from: usize) -> (k: usize)
    ensures
        k == table_body_end(line_views(lines@), from as int),
{
    let ghost lv = line_views(lines@);
    let mut k = from;
    while k < lines.len() && !blank_line(&lines[k]) && crate::text::contains_char(&lines[k], 0, lines[k].len(), '|')
        invariant
            from <= k,
            lv == line_views(lines@),
            table_body_end(lv, k as int) == table_body_end(lv, from as int),
        decreases lines@.len() - k,
    {
        assert(lines@[k as int]@.subrange(0, lines@[k as int]@.len() as int) =~= lv[k as int]);
        k += 1;
    }
    proof {
        if k < lines@.len() {
            assert(lines@[k as int]@.subrange(0, lines@[k as int]@.len() as int) =~= lv[k as int]);
        }
    }
    k
}

/// The trimmed line starts with `>`.
fn quote_line(l: &Vec<char>) -> (b: bool)
    ensures
        b == starts_with(trim_start(l@), seq!['>']),
{
    let a = skip_ws(l, 0, l.len());
    assert(l@.subrange(0, l@.len() as int) =~= l@);
    assert(l@.subrange(a as int, l@.len() as int) =~= trim_start(l@));
    proof {
        if starts_with(trim_start(l@), seq!['>']) {
            assert(trim_start(l@)[0] == seq!['>'][0]);
        }
    }
    a < l.len() && l[a] == '>'
}

/// Whether line `i` ends a paragraph before it.
fn is_para_stop(lines: &[Vec<char>], i: usize, gfm: bool, kramdown: bool) -> (b: bool)
    requires
        i < lines@.len(),
    ensures
        b == para_stop(line_views(lines@), i as int, gfm, kramdown),
{
    let l = &lines[i];
    proof {
        assert(line_views(lines@)[i as int] == l@);
        assert(lines@.map_values(|l: Vec<char>| l@) == line_views(lines@));
    }
    blank_line(l) || thematic_break_chars(l) || is_heading(l) || is_fence(l) || quote_line(l)
        || list_marker_chars(l) || is_html_block_start(l) || link_ref_def_chars(l) || (gfm
        && table_start_chars(lines, i)) || (kramdown && is_kramdown_attr_line(l))
}

/// `para_end` from `from`.
fn find_para_end(lines: &[Vec<char>], from: usize, gfm: bool, kramdown: bool) -> (k: usize)
    ensures
        k == para_end(line_views(lines@), from as int, gfm, kramdown),
{
    let ghost lv = line_views(lines@);
    let mut k = from;
    while k < lines.len() && !is_para_stop(lines, k, gfm, kramdown)
        invariant
            from <= k,
            lv == line_views(lines@),
            para_end(lv, k as int, gfm, kramdown) == para_end(lv, from as int, gfm, kramdown),
        decreases lines@.len() - k,
    {
        k += 1;
    }
    k
}

// ---------------------------------------------------------------------------
// Bounds of the scanning functions
// ---------------------------------------------------------------------------

pub proof fn lemma_fence_end(lines: Seq<Seq<char>>, i: int, c: char, n: nat)
    requires
        0 <= i <= lines.len(),
    ensures
        i <= fence_end(lines, i, c, n) <= lines.len(),
    decreases lines.len() - i,
{
    if i < lines.len() && !closes_fence(lines[i], c, n) {
        lemma_fence_end(lines, i + 1, c, n);
    }
}

pub proof fn lemma_next_blank(lines: Seq<Seq<char>>, i: int)
    requires
        0 <= i <= lines.len(),
    ensures
        i <= next_blank(lines, i) <= lines.len(),
    decreases lines.len() - i,
{
    if i < lines.len() && !all_ws(lines[i]) {
        lemma_next_blank(lines, i + 1);
    }
}

pub proof fn lemma_indent_end(lines: Seq<Seq<char>>, i: int)
    requires
        0 <= i <= lines.len(),
    ensures
        i <= indent_end(lines, i) <= lines.len(),
        forall|k: int| i <= k < indent_end(lines, i) ==> all_ws(#[trigger] lines[k]) || indented(lines[k]),
    decreases lines.len() - i,
{
    if i < lines.len() {
        if all_ws(lines[i]) {
            if i + 1 < lines.len() && indented(lines[i + 1]) {
                lemma_indent_end(lines, i + 1);
            }
        } else if indented(lines[i]) {
            lemma_indent_end(lines, i + 1);
        }
    }
}

pub proof fn lemma_comment_end(lines: Seq<Seq<char>>, i: int)
    requires
        0 <= i < lines.len(),
    ensures
        i < comment_end(lines, i) <= lines.len(),
    decreases lines.len() - i,
{
    if window_from(lines[i], 0) < 0 {
        if i + 1 < lines.len() {
            lemma_comment_end(lines, i + 1);
        } else {
            assert(comment_end(lines, i + 1) == i + 1);
        }
    }
}

pub proof fn lemma_table_body_end(lines: Seq<Seq<char>>, i: int)
    requires
        0 <= i <= lines.len(),
    ensures
        i <= table_body_end(lines, i) <= lines.len(),
    decreases lines.len() - i,
{
    if i < lines.len() && !all_ws(lines[i]) && has_pipe(lines[i]) {
        lemma_table_body_end(lines, i + 1);
    }
}

pub proof fn lemma_para_end(lines: Seq<Seq<char>>, i: int, gfm: bool, kramdown: bool)
    requires
        0 <= i <= lines.len(),
    ensures
        i <= para_end(lines, i, gfm, kramdown) <= lines.len(),
    decreases lines.len() - i,
{
    if i < lines.len() && !para_stop(lines, i, gfm, kramdown) {
        lemma_para_end(lines, i + 1, gfm, kramdown);
    }
}

/// The four-space indentation test.
fn starts_four(l: &Vec<char>) -> (b: bool)
    ensures
        b == starts_with(l@, seq![' ', ' ', ' ', ' ']),
{
    proof {
        let p4 = seq![' ', ' ', ' ', ' '];
        if starts_with(l@, p4) {
            assert(l@[0] == p4[0] && l@[1] == p4[1] && l@[2] == p4[2] && l@[3] == p4[3]);
        }
    }
    l.len() >= 4 && l[0] == ' ' && l[1] == ' ' && l[2] == ' ' && l[3] == ' '
}

// ---------------------------------------------------------------------------
// Results of the block parsers
// ---------------------------------------------------------------------------

/// `try_fenced_code`'s result from state `s0` to state `s1`.
#[verifier::opaque]
pub open spec fn fenced_result(r: Option<Block>, s0: ParserState<'_>, s1: ParserState<'_>) -> bool {
    let lv = s0.lv();
    let p = s0.pos as int;
    let k = s0.opts.kramdown;
    if p < lv.len() && fence_line(lv[p]) {
        let l = lv[p];
        let e = fence_end(lv, p + 1, fence_char(l), fence_len(l));
        let after = if e < lv.len() { e + 1 } else { e };
        &&& s1.pos == after_attrs(lv, after, k)
        &&& r matches Some(Block::CodeBlock { lang, code, attrs, pos }) && opt_view(lang) == fence_lang(l)
            && code@ == nl_join(lv.subrange(p + 1, e)) && attrs_match(attrs, lv, after, k) && pos
            == s0.span_spec(p, s1.pos as int)
    } else {
        r is None && s1.pos == s0.pos
    }
}

/// `try_indented_code`'s result from state `s0` to state `s1`.
#[verifier::opaque]
pub open spec fn indented_result(r: Option<Block>, s0: ParserState<'_>, s1: ParserState<'_>) -> bool {
    let lv = s0.lv();
    let p = s0.pos as int;
    let k = s0.opts.kramdown;
    if p < lv.len() && indented(lv[p]) {
        let e = indent_end(lv, p);
        &&& s1.pos == after_attrs(lv, e, k)
        &&& r matches Some(Block::CodeBlock { lang, code, attrs, pos }) && lang is None && code@ == nl_join(
            lv.subrange(p, e).map_values(|l: Seq<char>| indent_piece(l)),
        ) && attrs_match(attrs, lv, e, k) && pos == s0.span_spec(p, s1.pos as int)
    } else {
        r is None && s1.pos == s0.pos
    }
}

/// `parse_html_comment`'s result.
#[verifier::opaque]
pub open spec fn comment_result(r: Block, s0: ParserState<'_>, s1: ParserState<'_>) -> bool {
    let lv = s0.lv();
    let p = s0.pos as int;
    let e = comment_end(lv, p);
    &&& s1.pos == e
    &&& r matches Block::Comment { value, pos } && value@ == crate::parsers::lines::comment_content(
        nl_terminated(lv.subrange(p, e)),
    ) && pos == s0.span_spec(p, e)
}

/// `try_link_reference_definition`'s result.
#[verifier::opaque]
pub open spec fn ref_def_result(r: Option<Block>, s0: ParserState<'_>, s1: ParserState<'_>) -> bool {
    let lv = s0.lv();
    let p = s0.pos as int;
    if p < lv.len() && ref_def_parts(lv[p]) is Some {
        let (l, u, t) = ref_def_parts(lv[p])->Some_0;
        &&& s1.pos == p + 1
        &&& r matches Some(Block::LinkReferenceDefinition { label, url, title, pos }) && label@ == l && url@
            == u && opt_view(title) == t && pos == s0.span_spec(p, p + 1)
    } else {
        r is None && s1.pos == s0.pos
    }
}

/// `parse_table`'s result.
#[verifier::opaque]
pub open spec fn table_result(r: Block, s0: ParserState<'_>, s1: ParserState<'_>) -> bool {
    let lv = s0.lv();
    let p = s0.pos as int;
    let k = s0.opts.kramdown;
    let e = table_body_end(lv, p + 2);
    &&& s1.pos == after_attrs(lv, e, k)
    &&& r matches Block::Table { table, pos, attrs } && table.rows@.len() == e - (p + 2)
        && row_ok(table.header, lv[p], s0.opts.gfm, refs_view(Some(s0.refs)))
        && (forall|j: int|
        0 <= j < table.rows@.len() ==> row_ok(
            #[trigger] table.rows@[j],
            lv[p + 2 + j],
            s0.opts.gfm,
            refs_view(Some(s0.refs)),
        )) && table.alignments@ == row_pieces(
        lv[p + 1],
    ).map_values(|c: Seq<char>| alignment_of(c)) && pos == s0.span_spec(p, e) && attrs_match(attrs, lv, e, k)
}

/// Whether a paragraph at line `p` that takes no line and no attributes
/// takes its first line as text instead.
pub open spec fn para_takes_first(lv: Seq<Seq<char>>, p: int, gfm: bool, kramdown: bool) -> bool {
    let e = para_end(lv, p, gfm, kramdown);
    e == p && after_attrs(lv, e, kramdown) == p && p < lv.len() && !all_ws(lv[p])
}

/// `parse_paragraph`'s result.
#[verifier::opaque]
pub open spec fn para_result(r: Block, s0: ParserState<'_>, s1: ParserState<'_>) -> bool {
    let lv = s0.lv();
    let p = s0.pos as int;
    let g = s0.opts.gfm;
    let k = s0.opts.kramdown;
    let e = para_end(lv, p, g, k);
    let first = para_takes_first(lv, p, g, k);
    let text = if first { lv[p] } else { nl_join(lv.subrange(p, e)) };
    let end = if first { p + 1 } else { after_attrs(lv, e, k) };
    &&& s1.pos == end
    &&& r matches Block::Paragraph { children, attrs, pos } && attrs_match(attrs, lv, e, k) && pos
        == s0.span_spec(p, end) && inline_of(children@, text, g, s0.refs)
}

impl<'a> ParserState<'a> {
    /// A fenced code block at the current line.
    fn try_fenced_code(&mut self) -> (r: Option<Block>)
        requires
            old(self).wf(),
        ensures
            final(self).same_ctx(old(self)),
            fenced_result(r, *old(self), *final(self)),
            moves_on(r, *old(self), *final(self)),
            r is Some <==> (old(self).pos < old(self).lines@.len() && fence_line(old(self).lv()[old(self).pos as int])),
            r is None ==> final(self).pos == old(self).pos,
    {
        proof {
            reveal(fenced_result);
        }
        let lines = self.lines;
        if self.pos >= lines.len() {
            return None;
        }
        let start_line = self.pos;
        let line = &lines[start_line];
        if !is_fence(line) {
            return None;
        }
        let ghost lv = self.lv();
        assert(lv[start_line as int] == line@);
        let s0 = skip_ws(line, 0, line.len());
        assert(line@.subrange(0, line@.len() as int) =~= line@);
        assert(line@.subrange(s0 as int, line@.len() as int) =~= trim_start(line@));
        let c = line[s0];
        let n = count_run(line, s0, c);
        proof {
            crate::parsers::lines::lemma_run_len_shift(line@, s0 as int, 0, c);
            crate::parsers::inline::lemma_run_len_bound(line@, s0 as int, c);
            assert(trim_start(line@).skip(n as int) =~= line@.subrange(s0 + n, line@.len() as int));
        }
        let (a, b) = trim_bounds(line, s0 + n, line.len());
        let lang = if a < b {
            Some(crate::text::string_of(line, a, b))
        } else {
            None
        };
        let e = find_fence_end(lines, start_line + 1, c, n);
        proof {
            lemma_fence_end(lv, start_line + 1, c, n as nat);
        }
        let code = join_lines(lines, start_line + 1, e);
        let after = if e < lines.len() { e + 1 } else { e };
        self.pos = after;
        proof {
            lemma_after_attrs(lv, after as int, self.opts.kramdown);
        }
        let attrs = self.try_trailing_attrs();
        let pos = self.span(start_line, self.pos);
        Some(Block::CodeBlock { lang, code, attrs, pos })
    }

    /// An indented code block (four spaces or a tab) at the current line.
    fn try_indented_code(&mut self) -> (r: Option<Block>)
        requires
            old(self).wf(),
        ensures
            final(self).same_ctx(old(self)),
            indented_result(r, *old(self), *final(self)),
            moves_on(r, *old(self), *final(self)),
            r is Some <==> (old(self).pos < old(self).lines@.len() && indented(old(self).lv()[old(self).pos as int])),
            r is None ==> final(self).pos == old(self).pos,
    {
        proof {
            reveal(indented_result);
        }
        let lines = self.lines;
        if self.pos >= lines.len() {
            return None;
        }
        let start_line = self.pos;
        if !is_indented(&lines[start_line]) {
            return None;
        }
        let ghost lv = self.lv();
        let e = find_indent_end(lines, start_line);
        proof {
            lemma_indent_end(lv, start_line as int);
        }
        let mut code = String::new();
        let mut k = start_line;
        assert(lv.subrange(start_line as int, start_line as int).map_values(|l: Seq<char>| indent_piece(l)) =~= Seq::<Seq<char>>::empty());
        while k < e
            invariant
                start_line <= k <= e <= lines@.len(),
                lv == line_views(lines@),
                e == indent_end(lv, start_line as int),
                forall|j: int| start_line <= j < e ==> all_ws(#[trigger] lv[j]) || indented(lv[j]),
                code@ == nl_join(lv.subrange(start_line as int, k as int).map_values(|l: Seq<char>| indent_piece(l))),
            decreases e - k,
        {
            let l = &lines[k];
            let ghost parts = lv.subrange(start_line as int, k as int).map_values(|l: Seq<char>| indent_piece(l));
            assert(lv[k as int] == l@);
            let ghost piece = indent_piece(l@);
            if blank_line(l) {
                append_joined(&mut code, Ghost(parts), k == start_line, l, 0, 0);
                assert(l@.subrange(0, 0) =~= piece);
            } else if starts_four(l) {
                append_joined(&mut code, Ghost(parts), k == start_line, l, 4, l.len());
                assert(l@.subrange(4, l@.len() as int) =~= piece);
            } else {
                assert(indented(l@));
                assert(starts_with(l@, seq!['\t']));
                append_joined(&mut code, Ghost(parts), k == start_line, l, 1, l.len());
                assert(l@.subrange(1, l@.len() as int) =~= piece);
            }
            assert(code@ == nl_join(parts.push(piece)));
            assert(parts.push(piece) =~= lv.subrange(start_line as int, k + 1).map_values(|l: Seq<char>| indent_piece(l)));
            k += 1;
        }
        self.pos = e;
        proof {
            lemma_indent_end(lv, start_line + 1);
            lemma_after_attrs(lv, e as int, self.opts.kramdown);
        }
        let attrs = self.try_trailing_attrs();
        let pos = self.span(start_line, self.pos);
        Some(Block::CodeBlock { lang: None, code, attrs, pos })
    }

    /// The lines of an HTML block: up to the next blank line.
    fn collect_html_block(&mut self) -> (r: String)
        requires
            old(self).pos <= old(self).lines@.len(),
        ensures
            final(self).same_ctx(old(self)),
            final(self).pos == next_blank(old(self).lv(), old(self).pos as int),
            r@ == nl_join(old(self).lv().subrange(old(self).pos as int, final(self).pos as int)),
    {
        let lines = self.lines;
        let e = find_blank(lines, self.pos);
        proof {
            lemma_next_blank(self.lv(), self.pos as int);
        }
        let html = join_lines(lines, self.pos, e);
        self.pos = e;
        html
    }

    /// An HTML comment block starting at the current line.
    fn parse_html_comment(&mut self, start_line: usize) -> (r: Block)
        requires
            old(self).wf(),
            start_line == old(self).pos < old(self).lines@.len(),
        ensures
            final(self).same_ctx(old(self)),
            comment_result(r, *old(self), *final(self)),
            moves_on(Some(r), *old(self), *final(self)),
    {
        proof {
            reveal(comment_result);
        }
        let lines = self.lines;
        let e = find_comment_end(lines, start_line);
        proof {
            lemma_comment_end(self.lv(), start_line as int);
        }
        let mut content = join_lines(lines, start_line, e);
        push_char(&mut content, '\n');
        let chars = crate::text::string_chars(&content);
        let value = crate::parsers::lines::extract_comment_content(&chars);
        self.pos = e;
        let pos = self.span(start_line, e);
        Block::Comment { value, pos }
    }

    /// A link reference definition `[label]: url "title"` at the current line.
    fn try_link_reference_definition(&mut self) -> (r: Option<Block>)
        requires
            old(self).wf(),
        ensures
            final(self).same_ctx(old(self)),
            ref_def_result(r, *old(self), *final(self)),
            moves_on(r, *old(self), *final(self)),
            r is Some <==> (old(self).pos < old(self).lines@.len() && ref_def_parts(old(self).lv()[old(self).pos as int]) is Some),
            r is None ==> final(self).pos == old(self).pos,
    {
        proof {
            reveal(ref_def_result);
        }
        let lines = self.lines;
        if self.pos >= lines.len() {
            return None;
        }
        let start_line = self.pos;
        match ref_def_parts_chars(&lines[start_line]) {
            None => None,
            Some((label, url, title)) => {
                self.pos = start_line + 1;
                let pos = self.span(start_line, self.pos);
                Some(Block::LinkReferenceDefinition { label, url, title, pos })
            },
        }
    }

    /// A GFM table: header, delimiter row, and body rows up to a blank line
    /// or a line without `|`.
    fn parse_table(&mut self, start_line: usize) -> (r: Block)
        requires
            old(self).wf(),
            start_line == old(self).pos,
            table_start_spec(old(self).lv(), start_line as int),
        ensures
            final(self).same_ctx(old(self)),
            table_result(r, *old(self), *final(self)),
            moves_on(Some(r), *old(self), *final(self)),
    {
        proof {
            reveal(table_result);
        }
        let lines = self.lines;
        let ghost lv = self.lv();
        let header = &lines[start_line];
        let delimiter = &lines[start_line + 1];
        assert(lv[start_line + 1] == delimiter@);
        let alignments = alignments_chars(delimiter);
        let e = find_table_body_end(lines, start_line + 2);
        proof {
            lemma_table_body_end(lv, start_line + 2);
        }
        let mut body: Vec<Vec<char>> = Vec::new();
        let mut k = start_line + 2;
        while k < e
            invariant
                start_line + 2 <= k <= e <= lines@.len(),
                lv == line_views(lines@),
                self.wf(),
                self.lines == lines,
                body@.len() == k - (start_line + 2),
                forall|j: int| 0 <= j < body@.len() ==> (#[trigger] body@[j])@ == lv[start_line + 2 + j],
            decreases e - k,
        {
            let l = &lines[k];
            assert(l@.subrange(0, l@.len() as int) =~= l@);
            body.push(slice_vec(l, 0, l.len()));
            k += 1;
        }
        assert forall|j: int| 0 <= j < body@.len() implies utf8_len((#[trigger] body@[j])@) <= usize::MAX by {
            assert(lines@[start_line + 2 + j]@ == lv[start_line + 2 + j]);
        }
        let block = build_table_chars(header, alignments, &body, Some(self.opts), Some(self.refs));
        self.pos = e;
        let span = self.span(start_line, e);
        proof {
            lemma_after_attrs(lv, e as int, self.opts.kramdown);
        }
        let attrs = self.try_trailing_attrs();
        match block {
            Block::Table { table, .. } => Block::Table { table, pos: span, attrs },
            other => other,
        }
    }

    /// A paragraph: lines up to a blank line or the start of another block.
    /// When it would take no line and no attributes, its first line is its
    /// text, so that parsing always moves on.
    fn parse_paragraph(&mut self) -> (r: Block)
        requires
            old(self).wf(),
            old(self).pos < old(self).lines@.len(),
        ensures
            final(self).same_ctx(old(self)),
            para_result(r, *old(self), *final(self)),
            moves_on(Some(r), *old(self), *final(self)),
    {
        proof {
            reveal(para_result);
            reveal(inline_of);
        }
        let lines = self.lines;
        let ghost lv = self.lv();
        let start_line = self.pos;
        let gfm = self.opts.gfm;
        let kramdown = self.opts.kramdown;
        let e = find_para_end(lines, start_line, gfm, kramdown);
        proof {
            lemma_para_end(lv, start_line as int, gfm, kramdown);
        }
        self.pos = e;
        proof {
            lemma_after_attrs(lv, e as int, kramdown);
        }
        let attrs = self.try_trailing_attrs();
        let raw = if e == start_line && self.pos == start_line && start_line < lines.len() && !blank_line(
            &lines[start_line],
        ) {
            self.pos = start_line + 1;
            assert(lv.subrange(start_line as int, start_line + 1) =~= seq![lv[start_line as int]]);
            join_lines(lines, start_line, start_line + 1)
        } else {
            join_lines(lines, start_line, e)
        };
        let children = parse_inline_with_refs(raw.as_str(), Some(self.opts), Some(self.refs));
        let pos = self.span(start_line, self.pos);
        Block::Paragraph { children, attrs, pos }
    }
}

// ---------------------------------------------------------------------------
// List items
// ---------------------------------------------------------------------------

/// The continuation text takes as many lines as it says and is no longer
/// than those lines with one separator each.
pub proof fn lemma_item_rest_size(lines: Seq<Seq<char>>, i: int, indent: nat)
    requires
        0 <= i <= lines.len(),
    ensures
        i + item_rest(lines, i, indent).1 <= lines.len(),
        item_rest(lines, i, indent).0.len() <= line_total(lines.subrange(i, i + item_rest(lines, i, indent).1)),
    decreases lines.len() - i,
{
    if i < lines.len() {
        let l = lines[i];
        let r = item_rest(lines, i + 1, indent);
        let m = r.1;
        if all_ws(l) || run_len(l, 0, ' ') >= indent || !item_stop(l) {
            lemma_item_rest_size(lines, i + 1, indent);
            let sub = lines.subrange(i, i + 1 + m);
            lemma_line_total_append(seq![l], lines.subrange(i + 1, i + 1 + m));
            assert(seq![l] + lines.subrange(i + 1, i + 1 + m) =~= sub);
            assert(seq![l].drop_last() =~= Seq::<Seq<char>>::empty());
            assert(line_total(Seq::<Seq<char>>::empty()) == 0);
            assert(line_total(seq![l]) == l.len() + 1);
            if run_len(l, 0, ' ') >= indent && !all_ws(l) {
                crate::parsers::inline::lemma_run_len_bound(l, 0, ' ');
            }
        } else {
            assert(lines.subrange(i, i) =~= Seq::<Seq<char>>::empty());
        }
    } else {
        assert(lines.subrange(i, i) =~= Seq::<Seq<char>>::empty());
    }
}

/// Where the content of a list line starts, and that it is past the marker.
/// The list marker of a line cuts the line at a character: after the
/// leading whitespace there is `-`, `*` or `+`, or a (possibly empty) run
/// of digits followed by an ASCII character.
pub open spec fn item_marker_defined(first: Seq<char>) -> bool {
    let t = trim_start(first);
    let d = crate::parsers::lines::digit_run(t, 0);
    ||| t.len() > 0 && (t[0] == '-' || t[0] == '*' || t[0] == '+')
    ||| d < t.len() && (t[d as int] as u32) < 0x80
}

/// A list marker line has a well-defined marker.
pub proof fn lemma_item_marker_defined(first: Seq<char>)
    requires
        list_marker_line(first),
    ensures
        item_marker_defined(first),
{
    let t = trim_start(first);
    let d = crate::parsers::lines::digit_run(t, 0);
    let rest = t.skip(d as int);
    if !(t.len() > 0 && (t[0] == '-' || t[0] == '*' || t[0] == '+')) {
        if starts_with(t, seq!['-', ' ']) || starts_with(t, seq!['*', ' ']) || starts_with(t, seq!['+', ' ']) {
            assert(t[0] == seq!['-', ' '][0] || t[0] == seq!['*', ' '][0] || t[0] == seq!['+', ' '][0]);
        } else {
            crate::parsers::lines::lemma_digit_run_bound(t, 0);
            if starts_with(rest, seq!['.', ' ']) {
                assert(rest[0] == '.');
            } else {
                assert(rest[0] == ')');
            }
            assert(t[d as int] == rest[0]);
        }
    }
}

pub proof fn lemma_item_content_start(first: Seq<char>)
    requires
        item_marker_defined(first),
    ensures
        lead_ws(first) < lead_ws(first) + marker_len(trim_start(first)) <= item_content_start(first) <= first.len(),
{
    let t = trim_start(first);
    lemma_lead_ws_bound(first);
    crate::parsers::lines::lemma_digit_run_bound(t, 0);
    let me = lead_ws(first) + marker_len(t);
    assert(me <= first.len());
    lemma_lead_ws_bound(first.skip(me));
}

/// A list item's text is shorter than its lines: it loses the marker and
/// the final separator.
pub proof fn lemma_item_spec_size(lines: Seq<Seq<char>>, start: int)
    requires
        0 <= start < lines.len(),
        list_marker_line(lines[start]),
    ensures
        start + item_spec(lines, start).1 <= lines.len(),
        item_spec(lines, start).1 >= 1,
        item_spec(lines, start).0.len() + 2 <= line_total(lines.subrange(start, start + item_spec(lines, start).1)),
{
    let first = lines[start];
    let ind = item_indent(first);
    let r = item_rest(lines, start + 1, ind);
    lemma_item_rest_size(lines, start + 1, ind);
    lemma_item_marker_defined(first);
    lemma_item_content_start(first);
    let cs = item_content_start(first);
    let fp = first.skip(cs).push('\n');
    assert(fp.len() <= first.len());
    let sub = lines.subrange(start, start + 1 + r.1);
    lemma_line_total_append(seq![first], lines.subrange(start + 1, start + 1 + r.1));
    assert(seq![first] + lines.subrange(start + 1, start + 1 + r.1) =~= sub);
    assert(seq![first].drop_last() =~= Seq::<Seq<char>>::empty());
    assert(line_total(Seq::<Seq<char>>::empty()) == 0);
    assert(line_total(seq![first]) == first.len() + 1);
}

/// Whether a line ends a list item when not indented enough.
fn item_stop_exec(l: &Vec<char>) -> (b: bool)
    ensures
        b == item_stop(l@),
{
    list_marker_chars(l) || is_heading(l) || is_fence(l) || thematic_break_chars(l) || quote_line(l)
        || is_kramdown_attr_line(l)
}

/// Collect the text of the list item starting at `start` (the marker
/// removed, continuation lines de-indented) and the number of lines it
/// takes.
pub fn collect_list_item(lines: &[Vec<char>], start: usize) -> (r: (String, usize))
    requires
        start < lines@.len(),
        item_marker_defined(lines@[start as int]@),
        utf8_len(lines@[start as int]@) <= usize::MAX,
    ensures
        (r.0@, r.1 as nat) == item_spec(line_views(lines@), start as int),
{
    let ghost lv = line_views(lines@);
    let first = &lines[start];
    assert(lv[start as int] == first@);
    let n = first.len();
    let ws = skip_ws(first, 0, n);
    assert(first@.subrange(0, n as int) =~= first@);
    let ghost t = trim_start(first@);
    assert(t =~= first@.subrange(ws as int, n as int));
    proof {
        lemma_item_content_start(first@);
    }
    let ml: usize = if first[ws] == '-' || first[ws] == '*' || first[ws] == '+' {
        1
    } else {
        let d = crate::parsers::lines::count_digits(first, ws);
        proof {
            crate::parsers::lines::lemma_digit_run_shift(first@, ws as int, 0);
        }
        d + 1
    };
    assert(ml == marker_len(t));
    let me = ws + ml;
    let cs = skip_ws(first, me, n);
    assert(first@.skip(me as int) =~= first@.subrange(me as int, n as int));
    assert(cs == item_content_start(first@));
    proof {
        lemma_utf8_len_sub(first@, ws as int, cs as int);
    }
    let indent = crate::text::utf8_len_of(first, ws, cs);
    let mut content: Vec<char> = Vec::new();
    let mut k = cs;
    while k < n
        invariant
            cs <= k <= n == first@.len(),
            content@ == first@.subrange(cs as int, k as int),
        decreases n - k,
    {
        content.push(first[k]);
        k += 1;
        assert(content@ =~= first@.subrange(cs as int, k as int));
    }
    content.push('\n');
    assert(content@ =~= first@.skip(cs as int).push('\n'));
    let ghost full = content@ + item_rest(lv, start + 1, indent as nat).0;
    let ghost total = 1 + item_rest(lv, start + 1, indent as nat).1;
    let mut consumed: usize = 1;
    let mut i = start + 1;
    let mut done = false;
    assert(content@ + item_rest(lv, i as int, indent as nat).0 == full);
    while i < lines.len() && !done
        invariant
            start + 1 <= i <= lines@.len(),
            lv == line_views(lines@),
            consumed == i - start,
            content@ + item_rest(lv, i as int, indent as nat).0 == full,
            consumed + item_rest(lv, i as int, indent as nat).1 == total,
            done ==> item_rest(lv, i as int, indent as nat) == (Seq::<char>::empty(), 0nat),
        decreases lines@.len() - i, if done { 0int } else { 1int },
    {
        let l = &lines[i];
        assert(lv[i as int] == l@);
        let ghost prev = content@;
        let ghost rest = item_rest(lv, i + 1, indent as nat);
        if blank_line(l) {
            content.push('\n');
            assert(prev + (seq!['\n'] + rest.0) =~= content@ + rest.0);
            consumed += 1;
            i += 1;
        } else {
            let lead = count_run(l, 0, ' ');
            if lead >= indent {
                proof {
                    crate::parsers::inline::lemma_run_len_bound(l@, 0, ' ');
                }
                let mut j = indent;
                while j < l.len()
                    invariant
                        indent <= j <= l@.len(),
                        content@ == prev + l@.subrange(indent as int, j as int),
                    decreases l@.len() - j,
                {
                    content.push(l[j]);
                    j += 1;
                    assert(content@ =~= prev + l@.subrange(indent as int, j as int));
                }
                content.push('\n');
                assert(prev + (l@.skip(indent as int).push('\n') + rest.0) =~= content@ + rest.0);
                consumed += 1;
                i += 1;
            } else if item_stop_exec(l) {
                done = true;
                assert(content@ + Seq::<char>::empty() =~= content@);
            } else {
                let mut j: usize = 0;
                while j < l.len()
                    invariant
                        j <= l@.len(),
                        content@ == prev + l@.subrange(0, j as int),
                    decreases l@.len() - j,
                {
                    content.push(l[j]);
                    j += 1;
                    assert(content@ =~= prev + l@.subrange(0, j as int));
                }
                content.push('\n');
                assert(l@.subrange(0, l@.len() as int) =~= l@);
                assert(prev + (l@.push('\n') + rest.0) =~= content@ + rest.0);
                consumed += 1;
                i += 1;
            }
        }
    }
    proof {
        if !done {
            assert(item_rest(lv, i as int, indent as nat) == (Seq::<char>::empty(), 0nat));
        }
        assert(content@ + Seq::<char>::empty() =~= content@);
        assert(content@ == full);
    }
    let text = crate::text::string_of(&content, 0, content.len() - 1);
    assert(content@.subrange(0, content@.len() - 1) =~= full.drop_last());
    (text, consumed)
}

// ---------------------------------------------------------------------------
// Block quotes and lists
// ---------------------------------------------------------------------------

/// A block quote goes on at line `l`: a `>` line, or (lazily) any line
/// that is neither blank nor (with Kramdown) an attribute line.
pub open spec fn quote_continues(l: Seq<char>, kramdown: bool) -> bool {
    starts_with(trim_start(l), seq!['>']) || (!all_ws(l) && !(kramdown && kramdown_attr_line(l)))
}

/// The first line at or after `i` that ends the block quote, or the end.
pub open spec fn quote_end(lines: Seq<Seq<char>>, i: int, kramdown: bool) -> int
    decreases lines.len() - i,
{
    if 0 <= i < lines.len() && quote_continues(lines[i], kramdown) {
        quote_end(lines, i + 1, kramdown)
    } else {
        i
    }
}

/// A line of a block quote with its `>` (and one space after it) removed.
pub open spec fn quote_piece(l: Seq<char>) -> Seq<char> {
    let t = trim_start(l);
    if starts_with(t, seq!['>']) {
        let rest = t.skip(1);
        if rest.len() > 0 && rest[0] == ' ' {
            rest.skip(1)
        } else {
            rest
        }
    } else {
        l
    }
}

pub proof fn lemma_quote_end(lines: Seq<Seq<char>>, i: int, kramdown: bool)
    requires
        0 <= i <= lines.len(),
    ensures
        i <= quote_end(lines, i, kramdown) <= lines.len(),
    decreases lines.len() - i,
{
    if i < lines.len() && quote_continues(lines[i], kramdown) {
        lemma_quote_end(lines, i + 1, kramdown);
    }
}

/// Where the list starting (or going on) at line `i` ends: items, and
/// blank lines followed by another item.
pub open spec fn list_end(lines: Seq<Seq<char>>, i: int) -> int
    decreases lines.len() - i,
{
    if i < 0 || i >= lines.len() {
        i
    } else if all_ws(lines[i]) {
        let peek = next_nonblank(lines, i + 1);
        if i < peek < lines.len() && list_marker_line(lines[peek]) {
            list_end(lines, peek)
        } else {
            i
        }
    } else if list_marker_line(lines[i]) {
        proof {
            lemma_item_spec_size(lines, i);
        }
        list_end(lines, i + item_spec(lines, i).1)
    } else {
        i
    }
}

/// The first lines of the items of the list starting at line `i`.
pub open spec fn list_items(lines: Seq<Seq<char>>, i: int) -> Seq<int>
    decreases lines.len() - i,
{
    if i < 0 || i >= lines.len() {
        Seq::empty()
    } else if all_ws(lines[i]) {
        let peek = next_nonblank(lines, i + 1);
        if i < peek < lines.len() && list_marker_line(lines[peek]) {
            list_items(lines, peek)
        } else {
            Seq::empty()
        }
    } else if list_marker_line(lines[i]) {
        proof {
            lemma_item_spec_size(lines, i);
        }
        seq![i] + list_items(lines, i + item_spec(lines, i).1)
    } else {
        Seq::empty()
    }
}

pub proof fn lemma_list_end(lines: Seq<Seq<char>>, i: int)
    requires
        0 <= i <= lines.len(),
    ensures
        i <= list_end(lines, i) <= lines.len(),
    decreases lines.len() - i,
{
    if i < lines.len() {
        if all_ws(lines[i]) {
            let peek = next_nonblank(lines, i + 1);
            if i < peek < lines.len() && list_marker_line(lines[peek]) {
                lemma_list_end(lines, peek);
            }
        } else if list_marker_line(lines[i]) {
            lemma_item_spec_size(lines, i);
            lemma_list_end(lines, i + item_spec(lines, i).1);
        }
    }
}

/// The task state of a list line (GFM only).
pub open spec fn task_of(l: Seq<char>, gfm: bool) -> Option<crate::tokens::token::TaskState> {
    if gfm {
        match crate::parsers::lines::task_marker_spec(l) {
            Some((st, _)) => Some(st),
            None => None,
        }
    } else {
        None
    }
}

/// `item` is the list item that starts at line `start`.
pub open spec fn item_ok(item: ListItem, s0: ParserState<'_>, start: int) -> bool {
    let lv = s0.lv();
    &&& item.task == task_of(lv[start], s0.opts.gfm)
    &&& item.pos == s0.span_spec(start, start + item_spec(lv, start).1)
}

/// `parse_block_quote`'s result.
#[verifier::opaque]
pub open spec fn quote_result(r: Block, s0: ParserState<'_>, s1: ParserState<'_>) -> bool {
    let lv = s0.lv();
    let p = s0.pos as int;
    let k = s0.opts.kramdown;
    let e = quote_end(lv, p, k);
    &&& s1.pos == after_attrs(lv, e, k)
    &&& r matches Block::BlockQuote { attrs, pos, .. } && attrs_match(attrs, lv, e, k) && pos == s0.span_spec(
        p,
        s1.pos as int,
    )
}

/// `parse_list`'s result.
#[verifier::opaque]
pub open spec fn list_result(r: Block, s0: ParserState<'_>, s1: ParserState<'_>) -> bool {
    let lv = s0.lv();
    let p = s0.pos as int;
    let k = s0.opts.kramdown;
    let e = list_end(lv, p);
    let starts = list_items(lv, p);
    &&& s1.pos == after_attrs(lv, e, k)
    &&& r matches Block::List { ordered, items, attrs, pos } && ordered == crate::text::is_digit(
        trim_start(lv[p])[0],
    ) && items@.len() == starts.len() && (forall|j: int|
        0 <= j < starts.len() ==> item_ok(#[trigger] items@[j], s0, starts[j])) && attrs_match(attrs, lv, e, k)
        && pos == s0.span_spec(p, s1.pos as int)
}

/// `collect_html_block` with the trailing attributes.
#[verifier::opaque]
pub open spec fn html_result(r: Block, s0: ParserState<'_>, s1: ParserState<'_>) -> bool {
    let lv = s0.lv();
    let p = s0.pos as int;
    let k = s0.opts.kramdown;
    let e = next_blank(lv, p);
    &&& s1.pos == after_attrs(lv, e, k)
    &&& r matches Block::HtmlBlock { html, attrs, pos } && html@ == nl_join(lv.subrange(p, e)) && attrs_match(
        attrs,
        lv,
        e,
        k,
    ) && pos == s0.span_spec(p, s1.pos as int)
}

/// The construct that line `p` starts, in the order the block parser
/// tries them: table, thematic break, heading, fenced code, indented code,
/// block quote, list, HTML comment, HTML block, link reference definition,
/// paragraph.
pub open spec fn block_kind(lv: Seq<Seq<char>>, p: int, gfm: bool, kramdown: bool) -> int {
    let l = lv[p];
    if gfm && table_start_spec(lv, p) {
        0
    } else if thematic_break_line(l) {
        1
    } else if heading_level(l) > 0 {
        2
    } else if fence_line(l) {
        3
    } else if indented(l) {
        4
    } else if starts_with(trim_start(l), seq!['>']) {
        5
    } else if list_marker_line(l) {
        6
    } else if html_block_start(l) && starts_with(trim_start(l), seq!['<', '!', '-', '-']) {
        7
    } else if html_block_start(l) {
        8
    } else if ref_def_parts(l) is Some {
        9
    } else {
        10
    }
}

/// `parse_block`'s result from state `s0` to state `s1`.
#[verifier::opaque]
pub open spec fn block_result(r: Option<Block>, s0: ParserState<'_>, s1: ParserState<'_>) -> bool {
    let lv = s0.lv();
    let p = s0.pos as int;
    &&& moves_on(r, s0, s1)
    &&& if p >= lv.len() {
        r is None && s1.pos == s0.pos
    } else {
        let kind = block_kind(lv, p, s0.opts.gfm, s0.opts.kramdown);
        let b = r->Some_0;
        &&& r is Some
        &&& kind == 0 ==> table_result(b, s0, s1)
        &&& kind == 1 ==> b == Block::ThematicBreak { pos: s0.span_spec(p, p + 1) } && s1.pos == p + 1
        &&& kind == 2 ==> heading_result(r, s0, s1)
        &&& kind == 3 ==> fenced_result(r, s0, s1)
        &&& kind == 4 ==> indented_result(r, s0, s1)
        &&& kind == 5 ==> quote_result(b, s0, s1)
        &&& kind == 6 ==> list_result(b, s0, s1)
        &&& kind == 7 ==> comment_result(b, s0, s1)
        &&& kind == 8 ==> html_result(b, s0, s1)
        &&& kind == 9 ==> ref_def_result(r, s0, s1)
        &&& kind == 10 ==> para_result(b, s0, s1)
    }
}

pub proof fn lemma_after_attrs(lines: Seq<Seq<char>>, i: int, kramdown: bool)
    requires
        0 <= i <= lines.len(),
    ensures
        i <= after_attrs(lines, i, kramdown) <= lines.len(),
{
    lemma_next_nonblank(lines, i);
}

/// Whether the line starts an HTML comment (`<!--` after whitespace).
fn comment_start(l: &Vec<char>) -> (b: bool)
    ensures
        b == starts_with(trim_start(l@), seq!['<', '!', '-', '-']),
{
    let a = skip_ws(l, 0, l.len());
    assert(l@.subrange(0, l@.len() as int) =~= l@);
    assert(l@.subrange(a as int, l@.len() as int) =~= trim_start(l@));
    crate::parsers::lines::starts_with_chars(l, a, l.len(), &['<', '!', '-', '-'])
}

impl<'a> ParserState<'a> {
    /// A block quote: `>` lines and lazy continuation lines, parsed again
    /// as a document of their own.
    fn parse_block_quote(&mut self) -> (r: Block)
        requires
            old(self).wf(),
            old(self).pos < old(self).lines@.len(),
            starts_with(trim_start(old(self).lv()[old(self).pos as int]), seq!['>']),
        ensures
            final(self).same_ctx(old(self)),
            quote_result(r, *old(self), *final(self)),
            moves_on(Some(r), *old(self), *final(self)),
            forall|d: nat| #[trigger] nested_ok(r, old(self).lv(), *old(self).opts, old(self).pos as int, d),
        decreases line_total(old(self).lv()), 1nat,
    {
        proof {
            reveal(quote_result);
        }
        let lines = self.lines;
        let ghost lv = self.lv();
        let start_line = self.pos;
        let kramdown = self.opts.kramdown;
        let mut e = start_line;
        while e < lines.len() && (quote_line(&lines[e]) || (!blank_line(&lines[e]) && !(kramdown
            && is_kramdown_attr_line(&lines[e]))))
            invariant
                start_line <= e,
                lv == line_views(lines@),
                quote_end(lv, e as int, kramdown) == quote_end(lv, start_line as int, kramdown),
            decreases lines@.len() - e,
        {
            e += 1;
        }
        proof {
            lemma_quote_end(lv, start_line as int, kramdown);
        }
        let mut inner = String::new();
        let mut k = start_line;
        assert(lv.subrange(start_line as int, start_line as int).map_values(|l: Seq<char>| quote_piece(l))
            =~= Seq::<Seq<char>>::empty());
        while k < e
            invariant
                start_line <= k <= e <= lines@.len(),
                start_line < e,
                lv == line_views(lines@),
                starts_with(trim_start(lv[start_line as int]), seq!['>']),
                inner@ == nl_join(lv.subrange(start_line as int, k as int).map_values(|l: Seq<char>| quote_piece(l))),
                k > start_line ==> inner@.len() + 2 <= line_total(lv.subrange(start_line as int, k as int)),
            decreases e - k,
        {
            let l = &lines[k];
            assert(lv[k as int] == l@);
            let ghost parts = lv.subrange(start_line as int, k as int).map_values(|l: Seq<char>| quote_piece(l));
            let ghost piece = quote_piece(l@);
            let ghost before = inner@.len();
            let a = skip_ws(l, 0, l.len());
            assert(l@.subrange(0, l@.len() as int) =~= l@);
            assert(l@.subrange(a as int, l@.len() as int) =~= trim_start(l@));
            proof {
                lemma_lead_ws_bound(l@);
            }
            proof {
                if starts_with(trim_start(l@), seq!['>']) {
                    assert(trim_start(l@)[0] == seq!['>'][0]);
                }
            }
            if a < l.len() && l[a] == '>' {
                assert(starts_with(trim_start(l@), seq!['>']));
                let b = if a + 1 < l.len() && l[a + 1] == ' ' { a + 2 } else { a + 1 };
                assert(l@.subrange(b as int, l@.len() as int) =~= piece);
                append_joined(&mut inner, Ghost(parts), k == start_line, l, b, l.len());
            } else {
                assert(!starts_with(trim_start(l@), seq!['>']));
                assert(l@.subrange(0, l@.len() as int) =~= piece);
                append_joined(&mut inner, Ghost(parts), k == start_line, l, 0, l.len());
            }
            proof {
                assert(parts.push(piece) =~= lv.subrange(start_line as int, k + 1).map_values(
                    |l: Seq<char>| quote_piece(l),
                ));
                lemma_line_total_step(lv, start_line as int, k as int);
                if k == start_line {
                    assert(lv.subrange(start_line as int, start_line as int) =~= Seq::<Seq<char>>::empty());
                    assert(line_total(Seq::<Seq<char>>::empty()) == 0);
                }
            }
            k += 1;
        }
        proof {
            lemma_line_total_sub(lv, start_line as int, e as int);
        }
        let inner_doc = super::md_to_ast(inner.as_str(), self.opts, self.file_name.clone());
        let ghost s0 = *self;
        proof {
            assert(inner@ == quote_text(lv, start_line as int, kramdown));
        }
        self.pos = e;
        proof {
            lemma_quote_end(lv, start_line + 1, kramdown);
            lemma_after_attrs(lv, e as int, kramdown);
        }
        let attrs = self.try_trailing_attrs();
        let pos = self.span(start_line, self.pos);
        let r = Block::BlockQuote { children: inner_doc.children, attrs, pos };
        proof {
            assert forall|d: nat| #[trigger] nested_ok(r, lv, *s0.opts, start_line as int, d) by {
                assert(deep_text(inner_doc.children@, inner@, *s0.opts, d));
            }
        }
        r
    }

    /// A list: items (each parsed again as a document of their own) and
    /// the blank lines between them.
    fn parse_list(&mut self) -> (r: Block)
        requires
            old(self).wf(),
            old(self).pos < old(self).lines@.len(),
            list_marker_line(old(self).lv()[old(self).pos as int]),
        ensures
            final(self).same_ctx(old(self)),
            list_result(r, *old(self), *final(self)),
            moves_on(Some(r), *old(self), *final(self)),
            forall|d: nat| #[trigger] nested_ok(r, old(self).lv(), *old(self).opts, old(self).pos as int, d),
        decreases line_total(old(self).lv()), 1nat,
    {
        proof {
            reveal(list_result);
        }
        let lines = self.lines;
        let ghost lv = self.lv();
        let ghost s0 = *self;
        let start_line = self.pos;
        let first = &lines[start_line];
        assert(lv[start_line as int] == first@);
        let a = skip_ws(first, 0, first.len());
        assert(first@.subrange(0, first@.len() as int) =~= first@);
        assert(first@.subrange(a as int, first@.len() as int) =~= trim_start(first@));
        proof {
            lemma_item_marker_defined(first@);
            lemma_item_content_start(first@);
        }
        let ordered = crate::text::is_ascii_digit(first[a]);
        let mut items: Vec<ListItem> = Vec::new();
        let mut done = false;
        let ghost mut seen: Seq<int> = Seq::empty();
        proof {
            lemma_list_end(lv, start_line as int);
        }
        while self.pos < lines.len() && !done
            invariant
                self.same_ctx(&s0),
                s0.lines == lines,
                s0.pos == start_line,
                lv == line_views(lines@),
                lv == s0.lv(),
                s0.wf(),
                start_line <= self.pos <= lines@.len(),
                !done ==> list_end(lv, self.pos as int) == list_end(lv, start_line as int),
                !done ==> list_items(lv, start_line as int) == seen + list_items(lv, self.pos as int),
                done ==> list_end(lv, start_line as int) == self.pos,
                done ==> list_items(lv, start_line as int) == seen,
                items@.len() == seen.len(),
                forall|j: int| 0 <= j < seen.len() ==> item_ok(#[trigger] items@[j], s0, seen[j]),
                forall|j: int, d: nat|
                    0 <= j < seen.len() ==> #[trigger] deep_text(
                        items@[j].children@,
                        item_spec(lv, seen[j]).0,
                        *s0.opts,
                        d,
                    ),
                line_total(lv) == line_total(s0.lv()),
                lv == old(self).lv(),
            decreases lines@.len() - self.pos, if done { 0int } else { 1int },
        {
            let line = &lines[self.pos];
            assert(lv[self.pos as int] == line@);
            if blank_line(line) {
                let peek = find_nonblank(lines, self.pos + 1);
                proof {
                    lemma_next_nonblank(lv, self.pos + 1);
                }
                if peek < lines.len() && list_marker_chars(&lines[peek]) {
                    assert(lv[peek as int] == lines@[peek as int]@);
                    self.pos = peek;
                } else {
                    proof {
                        if peek < lines@.len() {
                            assert(lv[peek as int] == lines@[peek as int]@);
                        }
                        assert(list_items(lv, self.pos as int) =~= Seq::<int>::empty());
                        assert(seen + Seq::<int>::empty() =~= seen);
                    }
                    done = true;
                }
            } else if list_marker_chars(line) {
                let item_start = self.pos;
                proof {
                    lemma_item_spec_size(lv, item_start as int);
                    crate::parsers::lines::lemma_list_marker_task_defined(line@);
                }
                proof {
                    lemma_item_marker_defined(line@);
                }
                let (content, consumed) = collect_list_item(lines, item_start);
                proof {
                    assert(content@ == item_spec(lv, item_start as int).0);
                    assert(consumed == item_spec(lv, item_start as int).1);
                    lemma_line_total_sub(lv, item_start as int, item_start + consumed);
                }
                self.pos = item_start + consumed;
                let item_end = self.pos;
                let task = if self.opts.gfm {
                    crate::parsers::lines::task_state_chars(line)
                } else {
                    None
                };
                assert(content@.len() + 1 < line_total(old(self).lv()));
                let inner = super::md_to_ast(content.as_str(), self.opts, self.file_name.clone());
                let pos = self.span(item_start, item_end);
                let ghost items_before = items@;
                items.push(ListItem { children: inner.children, task, pos });
                proof {
                    let old_seen = seen;
                    seen = seen.push(item_start as int);
                    assert(seen =~= old_seen + seq![item_start as int]);
                    assert(old_seen + list_items(lv, item_start as int) =~= seen + list_items(lv, self.pos as int));
                    assert forall|j: int| 0 <= j < seen.len() implies item_ok(#[trigger] items@[j], s0, seen[j]) by {
                        if j < old_seen.len() {
                            assert(items@[j] == items_before[j]);
                        }
                    }
                    assert forall|j: int, d: nat| 0 <= j < seen.len() implies #[trigger] deep_text(
                        items@[j].children@,
                        item_spec(lv, seen[j]).0,
                        *s0.opts,
                        d,
                    ) by {
                        if j < old_seen.len() {
                            assert(items@[j] == items_before[j]);
                        } else {
                            assert(deep_text(inner.children@, content@, *s0.opts, d));
                        }
                    }
                }
            } else {
                proof {
                    assert(list_items(lv, self.pos as int) =~= Seq::<int>::empty());
                    assert(seen + Seq::<int>::empty() =~= seen);
                }
                done = true;
            }
        }
        proof {
            if !done {
                assert(list_items(lv, self.pos as int) =~= Seq::<int>::empty());
                assert(seen + Seq::<int>::empty() =~= seen);
            }
        }
        proof {
            lemma_item_spec_size(lv, start_line as int);
            lemma_list_end(lv, start_line + item_spec(lv, start_line as int).1);
            lemma_after_attrs(lv, self.pos as int, self.opts.kramdown);
        }
        let attrs = self.try_trailing_attrs();
        let pos = self.span(start_line, self.pos);
        let ghost items_v = items@;
        let r = Block::List { ordered, items, attrs, pos };
        proof {
            assert(seen == list_items(lv, start_line as int));
            assert forall|d: nat| #[trigger] nested_ok(r, lv, *s0.opts, start_line as int, d) by {
                assert forall|j: int| 0 <= j < items_v.len() implies #[trigger] deep_text(
                    items_v[j].children@,
                    item_spec(lv, list_items(lv, start_line as int)[j]).0,
                    *s0.opts,
                    d,
                ) by {
                    assert(deep_text(items_v[j].children@, item_spec(lv, seen[j]).0, *s0.opts, d));
                }
                assert(r->items@ == items_v);
                assert(forall|j: int|
                    0 <= j < r->items@.len() ==> deep_text(
                        (#[trigger] r->items@[j]).children@,
                        item_spec(lv, list_items(lv, start_line as int)[j]).0,
                        *s0.opts,
                        d,
                    ));
            }
        }
        r
    }

    /// Parse the block that starts at the current line, or `None` at the
    /// end of the input.
    pub fn parse_block(&mut self) -> (r: Option<Block>)
        requires
            old(self).wf(),
        ensures
            final(self).same_ctx(old(self)),
            block_result(r, *old(self), *final(self)),
            moves_on(r, *old(self), *final(self)),
            r is Some <==> old(self).pos < old(self).lines@.len(),
            r is None ==> final(self).pos == old(self).pos,
            r matches Some(b) ==> forall|d: nat| #[trigger] nested_ok(b, old(self).lv(), *old(self).opts, old(self).pos as int, d),
        decreases line_total(old(self).lv()), 2nat,
    {
        proof {
            reveal(block_result);
        }
        let lines = self.lines;
        if self.pos >= lines.len() {
            return None;
        }
        let ghost lv = self.lv();
        let start_line = self.pos;
        let line = &lines[start_line];
        assert(lv[start_line as int] == line@);
        if self.opts.gfm && table_start_chars(lines, start_line) {
            let b = self.parse_table(start_line);
            proof {
                reveal(table_result);
            }
            return Some(b);
        }
        if thematic_break_chars(line) {
            self.pos = start_line + 1;
            let pos = self.span(start_line, self.pos);
            return Some(Block::ThematicBreak { pos });
        }
        let h = self.try_heading();
        if h.is_some() {
            proof {
                reveal(heading_result);
            }
            return h;
        }
        let f = self.try_fenced_code();
        if f.is_some() {
            proof {
                reveal(fenced_result);
            }
            return f;
        }
        let ic = self.try_indented_code();
        if ic.is_some() {
            proof {
                reveal(indented_result);
            }
            return ic;
        }
        if quote_line(line) {
            let b = self.parse_block_quote();
            return Some(b);
        }
        if list_marker_chars(line) {
            let b = self.parse_list();
            return Some(b);
        }
        if is_html_block_start(line) {
            if comment_start(line) {
                let b = self.parse_html_comment(start_line);
                proof {
                    reveal(comment_result);
                }
                return Some(b);
            }
            let b = self.parse_html_block();
            proof {
                reveal(html_result);
            }
            return Some(b);
        }
        let d = self.try_link_reference_definition();
        if d.is_some() {
            proof {
                reveal(ref_def_result);
            }
            return d;
        }
        let b = self.parse_paragraph();
        proof {
            reveal(para_result);
        }
        Some(b)
    }

    /// An HTML block (up to the next blank line) with its trailing
    /// attributes.
    fn parse_html_block(&mut self) -> (r: Block)
        requires
            old(self).wf(),
            old(self).pos < old(self).lines@.len(),
        ensures
            final(self).same_ctx(old(self)),
            html_result(r, *old(self), *final(self)),
            moves_on(Some(r), *old(self), *final(self)),
    {
        proof {
            reveal(html_result);
        }
        let ghost lv = self.lv();
        let start_line = self.pos;
        let html = self.collect_html_block();
        proof {
            lemma_next_blank(lv, start_line + 1);
            lemma_next_blank(lv, start_line as int);
            lemma_after_attrs(lv, self.pos as int, self.opts.kramdown);
        }
        let attrs = self.try_trailing_attrs();
        let pos = self.span(start_line, self.pos);
        Block::HtmlBlock { attrs, html, pos }
    }
}

// ---------------------------------------------------------------------------
// Link reference definitions with positions
// ---------------------------------------------------------------------------

/// The span of a definition on line `idx`: from the line start (capped at
/// `n`, the text's byte length) to the line's end (capped at `n`), the end
/// column being the line's character count.
pub open spec fn ref_def_pos(line: Seq<char>, idx: int, ls: Seq<usize>, n: int) -> Span {
    let raw = if 0 <= idx < ls.len() { ls[idx] as int } else { 0 };
    let s = if raw < n { raw } else { n };
    let e = if s + utf8_len(line) < n { s + utf8_len(line) } else { n };
    Span {
        start: Position { line: idx as usize, column: 0, offset: s as usize },
        end: Position { line: idx as usize, column: line.len() as usize, offset: e as usize },
    }
}

/// A definition as values: label, URL, title, span.
pub open spec fn def_view(d: LinkReferenceDefinition) -> (Seq<char>, Seq<char>, Option<Seq<char>>, Span) {
    (d.label@, d.url@, opt_view(d.title), d.pos)
}

/// The definition that line `idx` (its characters `line`) makes, as
/// values: label, URL, title and span; none if the line is no definition.
pub open spec fn line_ref_def(line: Seq<char>, idx: int, ls: Seq<usize>, n: int) -> Option<
    (Seq<char>, Seq<char>, Option<Seq<char>>, Span),
> {
    match ref_def_parts(line) {
        Some((a, b, c)) => Some((a, b, c, ref_def_pos(line, idx, ls, n))),
        None => None,
    }
}

/// The definitions of the first `k` lines, in order.
pub open spec fn ref_defs_upto(lines: Seq<Seq<char>>, k: int, ls: Seq<usize>, n: int) -> Seq<
    (Seq<char>, Seq<char>, Option<Seq<char>>, Span),
>
    decreases k,
{
    if k <= 0 {
        Seq::empty()
    } else {
        let prev = ref_defs_upto(lines, k - 1, ls, n);
        let l = lines[k - 1];
        match ref_def_parts(l) {
            Some((a, b, c)) => prev.push((a, b, c, ref_def_pos(l, k - 1, ls, n))),
            None => prev,
        }
    }
}

/// [`parse_link_ref_def_line`] on the characters of the line; `n` is the
/// byte length of the whole text.
pub fn ref_def_line_chars(line: &[char], line_idx: usize, line_starts: &[usize], n: usize) -> (r: Option<
    LinkReferenceDefinition,
>)
    requires
        utf8_len(line@) <= usize::MAX,
    ensures
        match (r, ref_def_parts(line@)) {
            (Some(d), Some((a, b, c))) => def_view(d) == (a, b, c, ref_def_pos(line@, line_idx as int, line_starts@, n as int)),
            (None, None) => true,
            _ => false,
        },
{
    match ref_def_parts_chars(line) {
        None => None,
        Some((label, url, title)) => {
            let raw = if line_idx < line_starts.len() { line_starts[line_idx] } else { 0 };
            let start_offset = if raw < n { raw } else { n };
            assert(line@.subrange(0, line@.len() as int) =~= line@);
            let bytes = crate::text::utf8_len_of(line, 0, line.len());
            let sum = start_offset.saturating_add(bytes);
            let end_offset = if sum < n { sum } else { n };
            let pos = Span::new(
                Position::new(line_idx, 0, start_offset),
                Position::new(line_idx, line.len(), end_offset),
            );
            Some(LinkReferenceDefinition { label, url, title, pos })
        },
    }
}

/// Parse one line as a link reference definition `[label]: url "title"`,
/// with its span: line `line_idx`, from the line's start offset (from
/// `line_starts`) to the end of the line, both capped at the length of
/// `input`.
pub fn parse_link_ref_def_line(line: &str, line_idx: usize, line_starts: &[usize], input: &str) -> (r: Option<
    LinkReferenceDefinition,
>)
    ensures
        match (r, ref_def_parts(line@)) {
            (Some(d), Some((a, b, c))) => def_view(d) == (a, b, c, ref_def_pos(line@, line_idx as int, line_starts@, utf8_len(input@) as int)),
            (None, None) => true,
            _ => false,
        },
        match r {
            Some(d) => line_ref_def(line@, line_idx as int, line_starts@, utf8_len(input@) as int) == Some(def_view(d)),
            None => line_ref_def(line@, line_idx as int, line_starts@, utf8_len(input@) as int) is None,
        },
{
    let chars = str_to_chars(line);
    crate::text::str_bytes_bound(line);
    crate::text::str_bytes_bound(input);
    ref_def_line_chars(&chars, line_idx, line_starts, input.len())
}

// ---------------------------------------------------------------------------
// Whole documents
// ---------------------------------------------------------------------------

/// The blocks are in source order: each ends (line-wise) no later than the
/// next one starts, and none ends after line `end_line`.
pub open spec fn children_in_order(c: Seq<Block>, end_line: usize) -> bool {
    &&& forall|j: int| 0 <= j < c.len() - 1 ==> (#[trigger] c[j]).span().end.line <= c[j + 1].span().start.line
    &&& forall|j: int| 0 <= j < c.len() ==> (#[trigger] c[j]).span().start.line <= c[j].span().end.line <= end_line
}

/// Adding a block that starts after the others end keeps them in order.
pub proof fn lemma_push_in_order(c: Seq<Block>, x: Block, a: usize, b: usize)
    requires
        children_in_order(c, a),
        a <= x.span().start.line <= x.span().end.line <= b,
    ensures
        children_in_order(c.push(x), b),
{
    let d = c.push(x);
    assert forall|j: int| 0 <= j < d.len() - 1 implies (#[trigger] d[j]).span().end.line <= d[j + 1].span().start.line by {
        assert(d[j] == c[j]);
        if j + 1 < c.len() {
            assert(d[j + 1] == c[j + 1]);
        } else {
            assert(d[j + 1] == x);
        }
    }
    assert forall|j: int| 0 <= j < d.len() implies (#[trigger] d[j]).span().start.line <= d[j].span().end.line <= b by {
        if j < c.len() {
            assert(d[j] == c[j]);
        }
    }
}

/// A later limit keeps blocks in order.
pub proof fn lemma_in_order_mono(c: Seq<Block>, a: usize, b: usize)
    requires
        children_in_order(c, a),
        a <= b,
    ensures
        children_in_order(c, b),
{
}

/// `s0` with the cursor at line `p`.
pub open spec fn state_at<'a>(s0: ParserState<'a>, p: int) -> ParserState<'a> {
    ParserState { pos: p as usize, ..s0 }
}

/// Where the block `k` of a run that starts at line `from` begins: the
/// first non-blank line after the previous block.
pub open spec fn step_start(lv: Seq<Seq<char>>, from: int, ends: Seq<int>, k: int) -> int {
    next_nonblank(lv, if k == 0 { from } else { ends[k - 1] })
}

/// Block `k` of `bs` starts at the first non-blank line after the
/// previous block, ends at line `ends[k]`, and is what
/// [`ParserState::parse_block`] gives at its first line.
pub open spec fn step_ok(bs: Seq<Block>, s0: ParserState<'_>, ends: Seq<int>, k: int) -> bool {
    let lv = s0.lv();
    let from = step_start(lv, s0.pos as int, ends, k);
    &&& from < lv.len()
    &&& from < ends[k] <= lv.len()
    &&& block_result(Some(bs[k]), state_at(s0, from), state_at(s0, ends[k]))
}

/// The blocks `bs` are the first blocks parsed from the cursor of `s0`,
/// block `k` ending at line `ends[k]`.
#[verifier::opaque]
pub open spec fn steps_ok(bs: Seq<Block>, s0: ParserState<'_>, ends: Seq<int>) -> bool {
    &&& ends.len() == bs.len()
    &&& forall|k: int| 0 <= k < bs.len() ==> #[trigger] step_ok(bs, s0, ends, k)
}

/// One more parsed block extends the steps.
pub proof fn lemma_steps_push(bs: Seq<Block>, s0: ParserState<'_>, ends: Seq<int>, b: Block, at: int, end: int)
    requires
        steps_ok(bs, s0, ends),
        at == step_start(s0.lv(), s0.pos as int, ends, bs.len() as int),
        at < s0.lv().len(),
        at < end <= s0.lv().len(),
        block_result(Some(b), state_at(s0, at), state_at(s0, end)),
    ensures
        steps_ok(bs.push(b), s0, ends.push(end)),
{
    reveal(steps_ok);
    let lv = s0.lv();
    let bs2 = bs.push(b);
    let ends2 = ends.push(end);
    assert forall|k: int| 0 <= k < bs2.len() implies #[trigger] step_ok(bs2, s0, ends2, k) by {
        if k < bs.len() {
            assert(step_ok(bs, s0, ends, k));
            assert(bs2[k] == bs[k]);
            assert(ends2[k] == ends[k]);
            assert(step_start(lv, s0.pos as int, ends2, k) == step_start(lv, s0.pos as int, ends, k));
        } else {
            assert(step_start(lv, s0.pos as int, ends2, k) == at);
        }
    }
    assert(ends2.len() == bs2.len());
}

/// One more parsed block keeps the nested blocks of every step.
pub proof fn lemma_nested_push(
    bs: Seq<Block>,
    s0: ParserState<'_>,
    ends: Seq<int>,
    b: Block,
    at: int,
    end: int,
)
    requires
        ends.len() == bs.len(),
        at == step_start(s0.lv(), s0.pos as int, ends, bs.len() as int),
        forall|k: int, d: nat|
            0 <= k < bs.len() ==> #[trigger] nested_ok(
                bs[k],
                s0.lv(),
                *s0.opts,
                step_start(s0.lv(), s0.pos as int, ends, k),
                d,
            ),
        forall|d: nat| #[trigger] nested_ok(b, s0.lv(), *s0.opts, at, d),
    ensures
        forall|k: int, d: nat|
            0 <= k < bs.len() + 1 ==> #[trigger] nested_ok(
                bs.push(b)[k],
                s0.lv(),
                *s0.opts,
                step_start(s0.lv(), s0.pos as int, ends.push(end), k),
                d,
            ),
{
    let lv = s0.lv();
    assert forall|k: int, d: nat| 0 <= k < bs.len() + 1 implies #[trigger] nested_ok(
        bs.push(b)[k],
        lv,
        *s0.opts,
        step_start(lv, s0.pos as int, ends.push(end), k),
        d,
    ) by {
        if k < bs.len() {
            assert(bs.push(b)[k] == bs[k]);
            assert(step_start(lv, s0.pos as int, ends.push(end), k) == step_start(lv, s0.pos as int, ends, k));
            assert(nested_ok(bs[k], lv, *s0.opts, step_start(lv, s0.pos as int, ends, k), d));
        } else {
            assert(step_start(lv, s0.pos as int, ends.push(end), k) == at);
            assert(nested_ok(b, lv, *s0.opts, at, d));
        }
    }
}

impl<'a> ParserState<'a> {
    /// Parse blocks until the end, skipping blank lines between them.
    #[verifier::rlimit(60)]
    pub fn parse_all(&mut self) -> (blocks: Vec<Block>)
        requires
            old(self).wf(),
            old(self).pos <= old(self).lines@.len(),
        ensures
            final(self).same_ctx(old(self)),
            final(self).pos == old(self).lines@.len(),
            forall|d: nat| #[trigger] deep_blocks(blocks@, *old(self), d),
            children_in_order(blocks@, old(self).pos_spec(old(self).lines@.len() as int).line),
        decreases line_total(old(self).lv()), 3nat,
    {
        let mut blocks: Vec<Block> = Vec::new();
        let ghost s0 = *self;
        let ghost lv = self.lv();
        let ghost mut ends: Seq<int> = Seq::empty();
        let ghost mut last: int = self.pos as int;
        proof {
            lemma_next_nonblank(lv, last);
            reveal(steps_ok);
        }
        while !self.is_done()
            invariant
                self.same_ctx(&s0),
                s0.wf(),
                lv == s0.lv(),
                lv == old(self).lv(),
                s0 == *old(self),
                self.pos <= lv.len(),
                children_in_order(blocks@, s0.pos_spec(self.pos as int).line),
                steps_ok(blocks@, s0, ends),
                ends.len() == blocks@.len(),
                forall|k: int, d: nat|
                    0 <= k < blocks@.len() ==> #[trigger] nested_ok(
                        blocks@[k],
                        lv,
                        *s0.opts,
                        step_start(lv, s0.pos as int, ends, k),
                        d,
                    ),
                last == if blocks@.len() == 0 { s0.pos as int } else { ends.last() },
                s0.pos <= last <= self.pos,
                next_nonblank(lv, self.pos as int) == next_nonblank(lv, last),
            decreases lv.len() - self.pos,
        {
            let ghost before = blocks@;
            let ghost pos0 = self.pos;
            self.skip_blank_lines();
            proof {
                lemma_next_nonblank(lv, pos0 as int);
                lemma_next_nonblank(lv, self.pos as int);
                lemma_in_order_mono(before, s0.pos_spec(pos0 as int).line, s0.pos_spec(self.pos as int).line);
            }
            if !self.is_done() {
                let ghost at = self.pos;
                proof {
                    assert(*self == state_at(s0, at as int));
                    assert(at == step_start(lv, s0.pos as int, ends, blocks@.len() as int));
                }
                match self.parse_block() {
                    Some(b) => {
                        let ghost b_ghost = b;
                        proof {
                            lemma_push_in_order(before, b, s0.pos_spec(at as int).line, s0.pos_spec(self.pos as int).line);
                            assert(*self == state_at(s0, self.pos as int));
                        }
                        blocks.push(b);
                        proof {
                            let ends2 = ends.push(self.pos as int);
                            lemma_steps_push(before, s0, ends, b_ghost, at as int, self.pos as int);
                            lemma_nested_push(before, s0, ends, b_ghost, at as int, self.pos as int);
                            ends = ends2;
                            last = self.pos as int;
                            lemma_next_nonblank(lv, last);
                        }
                    },
                    None => {
                        self.advance();
                    },
                }
            }
        }
        proof {
            assert(step_start(lv, s0.pos as int, ends, blocks@.len() as int) == next_nonblank(lv, last));
            assert forall|d: nat| #[trigger] deep_blocks(blocks@, s0, d) by {
                assert(steps_ok(blocks@, s0, ends));
                assert(step_start(lv, s0.pos as int, ends, blocks@.len() as int) >= lv.len());
                if d > 0 {
                    assert forall|k: int| 0 <= k < blocks@.len() implies #[trigger] nested_ok(
                        blocks@[k],
                        lv,
                        *s0.opts,
                        step_start(lv, s0.pos as int, ends, k),
                        (d - 1) as nat,
                    ) by {}
                }
                assert(steps_ok(blocks@, s0, ends) && step_start(lv, s0.pos as int, ends, blocks@.len() as int)
                    >= lv.len() && (d > 0 ==> forall|k: int|
                    0 <= k < blocks@.len() ==> nested_ok(
                        #[trigger] blocks@[k],
                        lv,
                        *s0.opts,
                        step_start(lv, s0.pos as int, ends, k),
                        (d - 1) as nat,
                    )));
            }
        }
        blocks
    }
}

/// The number of `\n` bytes.
pub open spec fn newline_count(b: Seq<u8>) -> nat
    decreases b.len(),
{
    if b.len() == 0 {
        0
    } else {
        newline_count(b.drop_last()) + if b.last() == 10u8 {
            1nat
        } else {
            0nat
        }
    }
}

/// Line starts: the first is 0, they strictly increase, every later one
/// is the byte just after a `\n` (so none is past the end), and there is
/// one more of them than there are `\n` bytes.  (The text's bytes fit in
/// memory.)
pub proof fn law_line_starts(b: Seq<u8>)
    requires
        b.len() <= usize::MAX,
    ensures
        line_starts_spec(b).len() == 1 + newline_count(b),
        line_starts_spec(b)[0] == 0,
        forall|i: int, j: int|
            0 <= i < j < line_starts_spec(b).len() ==> line_starts_spec(b)[i] < line_starts_spec(b)[j],
        forall|i: int|
            0 < i < line_starts_spec(b).len() ==> 0 < #[trigger] line_starts_spec(b)[i] <= b.len() && b[line_starts_spec(
                b,
            )[i] - 1] == 10u8,
    decreases b.len(),
{
    if b.len() > 0 {
        let p = b.drop_last();
        law_line_starts(p);
        let lp = line_starts_spec(p);
        let ls = line_starts_spec(b);
        if b.last() == 10u8 {
            assert(ls == lp.push(b.len() as usize));
            assert forall|i: int| 0 <= i < lp.len() implies lp[i] < b.len() by {
                if i > 0 {
                    assert(0 < lp[i] <= p.len());
                }
            }
            assert forall|i: int, j: int| 0 <= i < j < ls.len() implies ls[i] < ls[j] by {
                assert(ls[i] == lp[i]);
                if j < lp.len() {
                    assert(ls[j] == lp[j]);
                }
            }
            assert forall|i: int| 0 < i < ls.len() implies 0 < #[trigger] ls[i] <= b.len() && b[ls[i] - 1] == 10u8 by {
                if i < lp.len() {
                    assert(ls[i] == lp[i]);
                    assert(0 < lp[i] <= p.len());
                    assert(b[lp[i] - 1] == p[lp[i] - 1]);
                }
            }
        } else {
            assert(ls == lp);
            assert forall|i: int| 0 < i < ls.len() implies 0 < #[trigger] ls[i] <= b.len() && b[ls[i] - 1] == 10u8 by {
                assert(0 < lp[i] <= p.len());
                assert(b[lp[i] - 1] == p[lp[i] - 1]);
            }
        }
    }
}


/// `defs` are the definitions that lines `0..k` make, in line order:
/// `idx[j]` is the line of the `j`-th, the lines increase, and every line
/// that makes a definition is among them.
pub open spec fn defs_from_lines(
    defs: Seq<(Seq<char>, Seq<char>, Option<Seq<char>>, Span)>,
    lines: Seq<Seq<char>>,
    k: int,
    ls: Seq<usize>,
    n: int,
    idx: Seq<int>,
) -> bool {
    &&& idx.len() == defs.len()
    &&& forall|j: int| 0 <= j < idx.len() ==> 0 <= #[trigger] idx[j] < k && line_ref_def(lines[idx[j]], idx[j], ls, n) == Some(defs[j])
    &&& forall|j1: int, j2: int| 0 <= j1 < j2 < idx.len() ==> #[trigger] idx[j1] < #[trigger] idx[j2]
    &&& forall|m: int| 0 <= m < k && (#[trigger] line_ref_def(lines[m], m, ls, n)) is Some ==> exists|j: int| 0 <= j < idx.len() && idx[j] == m
}

/// The definitions of a text are every definition its lines make, each
/// once, in line order: those that the per-line parser
/// ([`parse_link_ref_def_line`]) returns, line by line.
pub proof fn law_definitions_in_line_order(lines: Seq<Seq<char>>, k: int, ls: Seq<usize>, n: int) -> (idx: Seq<int>)
    requires
        0 <= k <= lines.len(),
    ensures
        defs_from_lines(ref_defs_upto(lines, k, ls, n), lines, k, ls, n, idx),
    decreases k,
{
    if k == 0 {
        Seq::empty()
    } else {
        let prev = law_definitions_in_line_order(lines, k - 1, ls, n);
        let defs = ref_defs_upto(lines, k, ls, n);
        let l = lines[k - 1];
        match line_ref_def(l, k - 1, ls, n) {
            Some(d) => {
                let idx = prev.push(k - 1);
                assert forall|j: int| 0 <= j < idx.len() implies 0 <= #[trigger] idx[j] < k && line_ref_def(
                    lines[idx[j]],
                    idx[j],
                    ls,
                    n,
                ) == Some(defs[j]) by {
                    if j < prev.len() {
                        assert(idx[j] == prev[j]);
                    }
                }
                assert forall|j1: int, j2: int| 0 <= j1 < j2 < idx.len() implies #[trigger] idx[j1] < #[trigger] idx[j2] by {
                    assert(idx[j1] == prev[j1]);
                    if j2 < prev.len() {
                        assert(idx[j2] == prev[j2]);
                    }
                }
                assert forall|m: int| 0 <= m < k && (#[trigger] line_ref_def(lines[m], m, ls, n)) is Some implies exists|j: int|
                    0 <= j < idx.len() && idx[j] == m by {
                    if m < k - 1 {
                        let j = choose|j: int| 0 <= j < prev.len() && prev[j] == m;
                        assert(idx[j] == m);
                    } else {
                        assert(idx[idx.len() - 1] == m);
                    }
                }
                idx
            },
            None => {
                assert forall|m: int| 0 <= m < k && (#[trigger] line_ref_def(lines[m], m, ls, n)) is Some implies exists|j: int|
                    0 <= j < prev.len() && prev[j] == m by {
                    if m == k - 1 {
                        assert(false);
                    }
                }
                prev
            },
        }
    }
}


proof fn lemma_para_lines_go_on(lines: Seq<Seq<char>>, i: int, j: int, gfm: bool, kramdown: bool)
    requires
        0 <= i <= j < para_end(lines, i, gfm, kramdown),
    ensures
        !para_stop(lines, j, gfm, kramdown),
        j < lines.len(),
    decreases j - i,
{
    if i < j {
        lemma_para_lines_go_on(lines, i + 1, j, gfm, kramdown);
    }
}

/// A paragraph never takes in an ATX heading line: every line of the
/// paragraph that starts at line `p` (the lines up to where it ends) has
/// heading level 0, so a heading line after paragraph text starts a block
/// of its own.
pub proof fn law_paragraph_stops_at_heading(lines: Seq<Seq<char>>, p: int, gfm: bool, kramdown: bool)
    requires
        0 <= p,
    ensures
        forall|j: int| p <= j < para_end(lines, p, gfm, kramdown) ==> heading_level(#[trigger] lines[j]) == 0,
        p < lines.len() && heading_level(lines[p]) > 0 ==> para_end(lines, p, gfm, kramdown) == p,
{
    assert forall|j: int| p <= j < para_end(lines, p, gfm, kramdown) implies heading_level(#[trigger] lines[j]) == 0 by {
        lemma_para_lines_go_on(lines, p, j, gfm, kramdown);
    }
}

} // verus!
