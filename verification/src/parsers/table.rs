//! GFM table parsing helpers.

use crate::options::AstOptions;
use crate::parsers::inline::{parse_inline_chars, LinkRefMap, toks_of, scan, gfm_spec, refs_view};
use crate::text::{
    contains_char, find_char, has_char, index_of, lemma_utf8_len_sub, split_on, str_bytes_bound,
    str_to_chars, string_of, trim, trim_bounds, utf8_len,
};
use crate::tokens::span::Span;
use crate::tokens::token::{Block, Table, TableCell, TableCellAlignment, TableRow};
use vstd::prelude::*;

verus! {

/// The trimmed line without one leading and one trailing `|`.
pub open spec fn strip_pipes(s: Seq<char>) -> Seq<char> {
    let t = trim(s);
    let a = if t.len() > 0 && t[0] == '|' { t.skip(1) } else { t };
    if a.len() > 0 && a.last() == '|' {
        a.drop_last()
    } else {
        a
    }
}

/// The cells of a table line: split at `|` after the outer pipes are removed.
pub open spec fn row_pieces(s: Seq<char>) -> Seq<Seq<char>> {
    split_on(strip_pipes(s), '|')
}

/// A delimiter cell: non-empty once trimmed, only `-` and `:`, at least one `-`.
pub open spec fn delim_cell_ok(c: Seq<char>) -> bool {
    let t = trim(c);
    t.len() > 0 && (forall|k: int| 0 <= k < t.len() ==> #[trigger] t[k] == '-' || t[k] == ':')
        && has_char(t, '-')
}

/// A table delimiter row looks like `| :--- | :--: | ---: |`.
pub open spec fn table_delimiter_line(s: Seq<char>) -> bool {
    trim(s).len() > 0 && forall|k: int|
        0 <= k < row_pieces(s).len() ==> delim_cell_ok(#[trigger] row_pieces(s)[k])
}

/// The alignment a delimiter cell specifies.
pub open spec fn alignment_of(c: Seq<char>) -> TableCellAlignment {
    let t = trim(c);
    let left = t.len() > 0 && t[0] == ':';
    let right = t.len() > 0 && t.last() == ':';
    if left && right {
        TableCellAlignment::Center
    } else if left {
        TableCellAlignment::Left
    } else if right {
        TableCellAlignment::Right
    } else {
        TableCellAlignment::Default
    }
}

/// A header line followed by a delimiter line starts a table.
pub open spec fn table_start_spec(lines: Seq<Seq<char>>, pos: int) -> bool {
    0 <= pos && pos + 1 < lines.len() && has_char(lines[pos], '|') && table_delimiter_line(lines[pos + 1])
}

/// Bounds of `strip_pipes(s[from..to])` within `s`.
fn strip_pipe_bounds(s: &[char], from: usize, to: usize) -> (r: (usize, usize))
    requires
        from <= to <= s@.len(),
    ensures
        from <= r.0 <= r.1 <= to,
        s@.subrange(r.0 as int, r.1 as int) == strip_pipes(s@.subrange(from as int, to as int)),
{
    let (mut a, mut b) = trim_bounds(s, from, to);
    let ghost t = trim(s@.subrange(from as int, to as int));
    if a < b && s[a] == '|' {
        a = a + 1;
    }
    let ghost u = s@.subrange(a as int, b as int);
    assert(u =~= (if t.len() > 0 && t[0] == '|' { t.skip(1) } else { t }));
    if a < b && s[b - 1] == '|' {
        b = b - 1;
        assert(s@.subrange(a as int, b as int) =~= u.drop_last());
    }
    (a, b)
}

/// The pieces of `s[from..to]` split at `c`, as bounds within `s`.
pub fn split_bounds(s: &[char], from: usize, to: usize, c: char) -> (r: Vec<(usize, usize)>)
    requires
        from <= to <= s@.len(),
    ensures
        r@.len() == split_on(s@.subrange(from as int, to as int), c).len(),
        forall|k: int|
            0 <= k < r@.len() ==> from <= (#[trigger] r@[k]).0 <= r@[k].1 <= to && s@.subrange(
                r@[k].0 as int,
                r@[k].1 as int,
            ) == split_on(s@.subrange(from as int, to as int), c)[k],
{
    let mut out: Vec<(usize, usize)> = Vec::new();
    let mut p = from;
    let ghost whole = split_on(s@.subrange(from as int, to as int), c);
    let ghost mut done: Seq<Seq<char>> = Seq::empty();
    loop
        invariant
            from <= p <= to <= s@.len(),
            whole == split_on(s@.subrange(from as int, to as int), c),
            whole == done + split_on(s@.subrange(p as int, to as int), c),
            out@.len() == done.len(),
            forall|k: int|
                0 <= k < out@.len() ==> from <= (#[trigger] out@[k]).0 <= out@[k].1 <= to
                    && s@.subrange(out@[k].0 as int, out@[k].1 as int) == done[k],
        decreases to - p,
    {
        let k = find_char(s, p, to, c);
        let ghost rest = s@.subrange(p as int, to as int);
        if k < to {
            proof {
                assert(index_of(rest, c) == k - p);
                assert(rest.take(k - p) =~= s@.subrange(p as int, k as int));
                assert(rest.skip(k - p + 1) =~= s@.subrange(k + 1, to as int));
                assert(split_on(rest, c) == seq![rest.take(k - p)] + split_on(rest.skip(k - p + 1), c));
                done = done.push(s@.subrange(p as int, k as int));
            }
            out.push((p, k));
            p = k + 1;
            assert(whole =~= done + split_on(s@.subrange(p as int, to as int), c));
        } else {
            proof {
                assert(split_on(rest, c) == seq![rest]);
                done = done.push(rest);
            }
            out.push((p, to));
            assert(whole =~= done);
            return out;
        }
    }
}

/// Whether a delimiter cell `s[a..b]` is well formed.
fn delim_cell_exec(s: &[char], a: usize, b: usize) -> (ok: bool)
    requires
        a <= b <= s@.len(),
    ensures
        ok == delim_cell_ok(s@.subrange(a as int, b as int)),
{
    let (x, y) = trim_bounds(s, a, b);
    let ghost t = trim(s@.subrange(a as int, b as int));
    assert(t =~= s@.subrange(x as int, y as int));
    if x >= y {
        return false;
    }
    let mut k = x;
    while k < y
        invariant
            x <= k <= y <= s@.len(),
            a <= b <= s@.len(),
            t == s@.subrange(x as int, y as int),
            t == trim(s@.subrange(a as int, b as int)),
            forall|m: int| 0 <= m < k - x ==> #[trigger] t[m] == '-' || t[m] == ':',
        decreases y - k,
    {
        if s[k] != '-' && s[k] != ':' {
            assert(t[k - x] == s@[k as int]);
            return false;
        }
        assert(t[k - x] == s@[k as int]);
        k += 1;
    }
    contains_char(s, x, y, '-')
}

/// `is_table_delimiter` on characters.
pub fn table_delimiter_chars(s: &[char]) -> (b: bool)
    ensures
        b == table_delimiter_line(s@),
{
    let n = s.len();
    assert(s@.subrange(0, n as int) =~= s@);
    let (x, y) = trim_bounds(s, 0, n);
    if x >= y {
        return false;
    }
    let (a, b) = strip_pipe_bounds(s, 0, n);
    let cells = split_bounds(s, a, b, '|');
    let mut k: usize = 0;
    while k < cells.len()
        invariant
            k <= cells@.len(),
            cells@.len() == row_pieces(s@).len(),
            forall|j: int| 0 <= j < cells@.len() ==> s@.subrange((#[trigger] cells@[j]).0 as int, cells@[j].1 as int)
                == row_pieces(s@)[j] && cells@[j].0 <= cells@[j].1 <= s@.len(),
            forall|j: int| 0 <= j < k ==> delim_cell_ok(#[trigger] row_pieces(s@)[j]),
        decreases cells@.len() - k,
    {
        let (p, q) = cells[k];
        if !delim_cell_exec(s, p, q) {
            return false;
        }
        k += 1;
    }
    true
}

/// A table delimiter row looks like `| :--- | :--: | ---: |` — cells
/// containing only `-`, `:`, and whitespace, with at least one `-`.
pub fn is_table_delimiter(line: &str) -> (b: bool)
    ensures
        b == table_delimiter_line(line@),
{
    let s = str_to_chars(line);
    table_delimiter_chars(&s)
}

/// `is_table_start` on lines held as characters.
pub fn table_start_chars(lines: &[Vec<char>], pos: usize) -> (b: bool)
    ensures
        b == table_start_spec(lines@.map_values(|l: Vec<char>| l@), pos as int),
{
    let ghost ls = lines@.map_values(|l: Vec<char>| l@);
    if pos >= lines.len() || lines.len() - pos < 2 {
        return false;
    }
    let header = &lines[pos];
    let has_pipe = contains_char(header.as_slice(), 0, header.len(), '|');
    assert(header@.subrange(0, header@.len() as int) =~= header@);
    has_pipe && table_delimiter_chars(lines[pos + 1].as_slice())
}

/// Check whether a line could be the start of a GFM table: at least one
/// `|` on the line and a delimiter row on the next line.
pub fn is_table_start(lines: &[&str], pos: usize) -> (b: bool)
    ensures
        b == table_start_spec(lines@.map_values(|l: &str| l@), pos as int),
{
    if pos >= lines.len() || lines.len() - pos < 2 {
        return false;
    }
    let header = str_to_chars(lines[pos]);
    let has_pipe = contains_char(header.as_slice(), 0, header.len(), '|');
    assert(header@.subrange(0, header@.len() as int) =~= header@);
    let delim = str_to_chars(lines[pos + 1]);
    has_pipe && table_delimiter_chars(&delim)
}

/// Alignment of the delimiter cell `s[a..b]`.
fn alignment_exec(s: &[char], a: usize, b: usize) -> (r: TableCellAlignment)
    requires
        a <= b <= s@.len(),
    ensures
        r == alignment_of(s@.subrange(a as int, b as int)),
{
    let (x, y) = trim_bounds(s, a, b);
    let ghost t = trim(s@.subrange(a as int, b as int));
    assert(t =~= s@.subrange(x as int, y as int));
    let left = x < y && s[x] == ':';
    let right = x < y && s[y - 1] == ':';
    if left && right {
        TableCellAlignment::Center
    } else if left {
        TableCellAlignment::Left
    } else if right {
        TableCellAlignment::Right
    } else {
        TableCellAlignment::Default
    }
}

/// `parse_delimiter_alignments` on characters.
pub fn alignments_chars(s: &[char]) -> (r: Vec<TableCellAlignment>)
    ensures
        r@ == row_pieces(s@).map_values(|c: Seq<char>| alignment_of(c)),
{
    let n = s.len();
    assert(s@.subrange(0, n as int) =~= s@);
    let (a, b) = strip_pipe_bounds(s, 0, n);
    let cells = split_bounds(s, a, b, '|');
    let mut out: Vec<TableCellAlignment> = Vec::new();
    let mut k: usize = 0;
    while k < cells.len()
        invariant
            k <= cells@.len(),
            cells@.len() == row_pieces(s@).len(),
            forall|j: int| 0 <= j < cells@.len() ==> s@.subrange((#[trigger] cells@[j]).0 as int, cells@[j].1 as int)
                == row_pieces(s@)[j] && cells@[j].0 <= cells@[j].1 <= s@.len(),
            out@ == row_pieces(s@).take(k as int).map_values(|c: Seq<char>| alignment_of(c)),
        decreases cells@.len() - k,
    {
        let (p, q) = cells[k];
        out.push(alignment_exec(s, p, q));
        k += 1;
        assert(out@ =~= row_pieces(s@).take(k as int).map_values(|c: Seq<char>| alignment_of(c)));
    }
    assert(row_pieces(s@).take(k as int) =~= row_pieces(s@));
    out
}

/// Parse a delimiter row into column alignments.
pub fn parse_delimiter_alignments(line: &str) -> (r: Vec<TableCellAlignment>)
    ensures
        r@ == row_pieces(line@).map_values(|c: Seq<char>| alignment_of(c)),
{
    let s = str_to_chars(line);
    alignments_chars(&s)
}

/// The trimmed cells of a table row.
pub open spec fn row_cells(s: Seq<char>) -> Seq<Seq<char>> {
    row_pieces(s).map_values(|c: Seq<char>| trim(c))
}

/// `split_table_row` on characters.
pub fn split_row_chars(s: &[char]) -> (r: Vec<String>)
    ensures
        r@.map_values(|x: String| x@) == row_cells(s@),
{
    let n = s.len();
    assert(s@.subrange(0, n as int) =~= s@);
    let (a, b) = strip_pipe_bounds(s, 0, n);
    let cells = split_bounds(s, a, b, '|');
    let mut out: Vec<String> = Vec::new();
    let mut k: usize = 0;
    while k < cells.len()
        invariant
            k <= cells@.len(),
            cells@.len() == row_pieces(s@).len(),
            forall|j: int| 0 <= j < cells@.len() ==> s@.subrange((#[trigger] cells@[j]).0 as int, cells@[j].1 as int)
                == row_pieces(s@)[j] && cells@[j].0 <= cells@[j].1 <= s@.len(),
            out@.map_values(|x: String| x@) == row_cells(s@).take(k as int),
        decreases cells@.len() - k,
    {
        let (p, q) = cells[k];
        let (x, y) = trim_bounds(s, p, q);
        assert(s@.subrange(x as int, y as int) == trim(row_pieces(s@)[k as int]));
        let ghost before = out@.map_values(|x: String| x@);
        out.push(string_of(s, x, y));
        assert(out@.map_values(|x: String| x@) =~= before.push(s@.subrange(x as int, y as int)));
        assert(row_cells(s@).take(k + 1) =~= row_cells(s@).take(k as int).push(row_cells(s@)[k as int]));
        k += 1;
        assert(out@.map_values(|x: String| x@) =~= row_cells(s@).take(k as int));
    }
    assert(row_cells(s@).take(k as int) =~= row_cells(s@));
    out
}

/// Split a table row into raw cell strings (pipes removed, leading/trailing
/// whitespace trimmed).
pub fn split_table_row(line: &str) -> (r: Vec<String>)
    ensures
        r@.map_values(|x: String| x@) == row_cells(line@),
{
    let s = str_to_chars(line);
    split_row_chars(&s)
}

/// `row` holds the cells of the table line `s`, each parsed as inline
/// content.
pub open spec fn row_ok(
    row: TableRow,
    s: Seq<char>,
    gfm: bool,
    rv: Option<Map<Seq<char>, (Seq<char>, Option<Seq<char>>)>>,
) -> bool {
    &&& row.cells@.len() == row_cells(s).len()
    &&& forall|j: int|
        0 <= j < row.cells@.len() ==> toks_of((#[trigger] row.cells@[j]).children@) == scan(
            row_cells(s)[j],
            0,
            Seq::empty(),
            gfm,
            rv,
        )
}

/// The cells of a row, each parsed as inline content.
fn row_of(s: &[char], opts: Option<&AstOptions>, refs: Option<&LinkRefMap>) -> (r: TableRow)
    requires
        utf8_len(s@) <= usize::MAX,
    ensures
        row_ok(r, s@, gfm_spec(opts), refs_view(refs)),
{
    let cells = split_row_chars(s);
    let mut out: Vec<TableCell> = Vec::new();
    let mut k: usize = 0;
    assert(cells@.map_values(|x: String| x@).len() == cells@.len());
    while k < cells.len()
        invariant
            k <= cells@.len(),
            out@.len() == k,
            cells@.map_values(|x: String| x@) == row_cells(s@),
            forall|j: int|
                0 <= j < k ==> toks_of((#[trigger] out@[j]).children@) == scan(
                    row_cells(s@)[j],
                    0,
                    Seq::empty(),
                    gfm_spec(opts),
                    refs_view(refs),
                ),
        decreases cells@.len() - k,
    {
        let cs = crate::text::string_chars(&cells[k]);
        crate::text::str_bytes_bound(cells[k].as_str());
        assert(cs@ == row_cells(s@)[k as int]) by {
            assert(cells@.map_values(|x: String| x@)[k as int] == cells@[k as int]@);
        }
        out.push(TableCell { children: parse_inline_chars(&cs, opts, refs) });
        k += 1;
    }
    TableRow { cells: out }
}

/// Build a table block from its lines held as characters.
pub fn build_table_chars(
    header_line: &[char],
    alignments: Vec<TableCellAlignment>,
    body_lines: &[Vec<char>],
    options: Option<&AstOptions>,
    refs: Option<&LinkRefMap>,
) -> (r: Block)
    requires
        utf8_len(header_line@) <= usize::MAX,
        forall|k: int| 0 <= k < body_lines@.len() ==> utf8_len((#[trigger] body_lines@[k])@) <= usize::MAX,
    ensures
        r matches Block::Table { table, pos, attrs } && table.rows@.len() == body_lines@.len()
            && row_ok(table.header, header_line@, gfm_spec(options), refs_view(refs))
            && (forall|k: int|
            0 <= k < body_lines@.len() ==> row_ok(
                #[trigger] table.rows@[k],
                body_lines@[k]@,
                gfm_spec(options),
                refs_view(refs),
            )) && table.alignments == alignments && pos == Span::zero() && attrs is None,
{
    let header = row_of(header_line, options, refs);
    let mut rows: Vec<TableRow> = Vec::new();
    let mut k: usize = 0;
    while k < body_lines.len()
        invariant
            k <= body_lines@.len(),
            rows@.len() == k,
            forall|j: int| 0 <= j < body_lines@.len() ==> utf8_len((#[trigger] body_lines@[j])@) <= usize::MAX,
            forall|j: int|
                0 <= j < k ==> row_ok(#[trigger] rows@[j], body_lines@[j]@, gfm_spec(options), refs_view(refs)),
        decreases body_lines@.len() - k,
    {
        rows.push(row_of(body_lines[k].as_slice(), options, refs));
        k += 1;
    }
    let pos = Span::default();
    Block::Table { table: Table { header, rows, alignments }, attrs: None, pos }
}

/// Build a [`Block::Table`] from a header line, its delimiter line, the
/// column alignments and the body lines.  Cells are parsed as inline content.
pub fn build_table(
    header_line: &str,
    _delimiter_line: &str,
    alignments: Vec<TableCellAlignment>,
    body_lines: &[&str],
    options: Option<&AstOptions>,
) -> (r: Block)
    ensures
        r matches Block::Table { table, pos, attrs } && table.rows@.len() == body_lines@.len()
            && row_ok(table.header, header_line@, gfm_spec(options), None)
            && (forall|k: int|
            0 <= k < body_lines@.len() ==> row_ok(#[trigger] table.rows@[k], body_lines@[k]@, gfm_spec(options), None))
            && table.alignments == alignments && pos == Span::zero() && attrs is None,
{
    let h = str_to_chars(header_line);
    str_bytes_bound(header_line);
    let mut body: Vec<Vec<char>> = Vec::new();
    let mut k: usize = 0;
    while k < body_lines.len()
        invariant
            k <= body_lines@.len(),
            body@.len() == k,
            forall|j: int| 0 <= j < k ==> (#[trigger] body@[j])@ == body_lines@[j]@,
            forall|j: int| 0 <= j < k ==> utf8_len((#[trigger] body@[j])@) <= usize::MAX,
        decreases body_lines@.len() - k,
    {
        str_bytes_bound(body_lines[k]);
        body.push(str_to_chars(body_lines[k]));
        k += 1;
    }
    build_table_chars(&h, alignments, &body, options, None)
}


/// How a delimiter cell's colons give its column's alignment: a colon at
/// the start only aligns left, at the end only aligns right, at both ends
/// centres, and no colon at either end leaves the default.
pub proof fn law_alignment_colons(c: Seq<char>)
    ensures
        ({
            let t = trim(c);
            let starts = t.len() > 0 && t[0] == ':';
            let ends = t.len() > 0 && t[t.len() - 1] == ':';
            &&& (alignment_of(c) == TableCellAlignment::Left) <==> (starts && !ends)
            &&& (alignment_of(c) == TableCellAlignment::Right) <==> (ends && !starts)
            &&& (alignment_of(c) == TableCellAlignment::Center) <==> (starts && ends)
            &&& (alignment_of(c) == TableCellAlignment::Default) <==> (!starts && !ends)
        }),
{
}

/// Reading a delimiter cell backwards swaps left and right alignment and
/// keeps centre and default.
pub proof fn law_alignment_mirror(c: Seq<char>)
    requires
        trim(c) == c,
        trim(c.reverse()) == c.reverse(),
    ensures
        alignment_of(c) == TableCellAlignment::Left <==> alignment_of(c.reverse()) == TableCellAlignment::Right,
        alignment_of(c) == TableCellAlignment::Right <==> alignment_of(c.reverse()) == TableCellAlignment::Left,
        alignment_of(c) == TableCellAlignment::Center <==> alignment_of(c.reverse()) == TableCellAlignment::Center,
{
    if c.len() > 0 {
        assert(c.reverse()[0] == c[c.len() - 1]);
        assert(c.reverse()[c.len() - 1] == c[0]);
    }
}

} // verus!
