//! Inline-level Markdown parser.
//!
//! Parses inline constructs: emphasis, code spans, links, images, reference
//! links, strikethrough (GFM), autolinks (GFM), hard and soft breaks, and
//! raw HTML.

use crate::options::AstOptions;
use crate::parsers::lines::{normalize_label_chars, normalize_label_spec};
use crate::text::{
    count_run, index_of_from, is_alpha, is_ascii_alphabetic, is_whitespace, is_ws,
    lemma_index_of_from, lemma_utf8_len_append, lemma_utf8_len_single, lemma_utf8_len_sub,
    len_utf8, run_len, skip_ws_back, starts_with, str_to_chars, string_of, trim, trim_bounds,
    utf8_len,
};
use crate::tokens::span::{Position, Span};
use crate::tokens::token::{EmphasisLevel, Inline};
use vstd::prelude::*;

verus! {

// ---------------------------------------------------------------------------
// Link reference map
// ---------------------------------------------------------------------------

/// The link reference definitions of a document, by normalised label.
pub struct LinkRefMap {
    entries: Vec<(String, (String, Option<String>))>,
}

/// The view of an optional string.
pub open spec fn opt_view(o: Option<String>) -> Option<Seq<char>> {
    match o {
        Some(s) => Some(s@),
        None => None,
    }
}

/// Index of the first entry at or after `i` whose label is `k`, or -1.
pub open spec fn entry_index(e: Seq<(String, (String, Option<String>))>, i: int, k: Seq<char>) -> int
    decreases e.len() - i,
{
    if i < 0 || i >= e.len() {
        -1
    } else if e[i].0@ == k {
        i
    } else {
        entry_index(e, i + 1, k)
    }
}

pub proof fn lemma_entry_index(e: Seq<(String, (String, Option<String>))>, i: int, k: Seq<char>)
    requires
        0 <= i,
    ensures
        entry_index(e, i, k) == -1 || (i <= entry_index(e, i, k) < e.len() && e[entry_index(
            e,
            i,
            k,
        )].0@ == k),
        forall|j: int|
            i <= j < e.len() && (entry_index(e, i, k) == -1 || j < entry_index(e, i, k)) ==> e[j].0@
                != k,
    decreases e.len() - i,
{
    if i < e.len() && e[i].0@ != k {
        lemma_entry_index(e, i + 1, k);
    }
}

pub proof fn lemma_entry_index_unique(
    e: Seq<(String, (String, Option<String>))>,
    i: int,
    k: Seq<char>,
    j: int,
)
    requires
        0 <= i <= j < e.len(),
        e[j].0@ == k,
        forall|m: int| i <= m < j ==> e[m].0@ != k,
    ensures
        entry_index(e, i, k) == j,
    decreases j - i,
{
    if i < j {
        lemma_entry_index_unique(e, i + 1, k, j);
    }
}

impl View for LinkRefMap {
    type V = Map<Seq<char>, (Seq<char>, Option<Seq<char>>)>;

    closed spec fn view(&self) -> Self::V {
        let e = self.entries@;
        Map::new(
            |k: Seq<char>| entry_index(e, 0, k) >= 0,
            |k: Seq<char>|
                {
                    let v = e[entry_index(e, 0, k)].1;
                    (v.0@, opt_view(v.1))
                },
        )
    }
}

impl LinkRefMap {
    /// An empty map.
    pub fn new() -> (r: Self)
        ensures
            r@ == Map::<Seq<char>, (Seq<char>, Option<Seq<char>>)>::empty(),
    {
        let r = LinkRefMap { entries: Vec::new() };
        assert(r@ =~= Map::<Seq<char>, (Seq<char>, Option<Seq<char>>)>::empty());
        r
    }

    /// Index of the entry for `label`, if any.
    fn index_of_label(&self, label: &[char]) -> (r: Option<usize>)
        ensures
            match r {
                Some(j) => j == entry_index(self.entries@, 0, label@) && j < self.entries@.len(),
                None => entry_index(self.entries@, 0, label@) == -1,
            },
    {
        let mut j: usize = 0;
        proof {
            lemma_entry_index(self.entries@, 0, label@);
        }
        while j < self.entries.len()
            invariant
                j <= self.entries@.len(),
                forall|m: int| 0 <= m < j ==> self.entries@[m].0@ != label@,
            decreases self.entries@.len() - j,
        {
            let same = chars_equal(&self.entries[j].0, label);
            if same {
                proof {
                    lemma_entry_index_unique(self.entries@, 0, label@, j as int);
                }
                return Some(j);
            }
            j += 1;
        }
        proof {
            let k = entry_index(self.entries@, 0, label@);
            if k != -1 {
                assert(self.entries@[k].0@ == label@);
            }
        }
        None
    }

    /// Insert (or replace) the URL and optional title for `label`.
    pub fn insert(&mut self, label: String, value: (String, Option<String>))
        ensures
            final(self)@ == old(self)@.insert(label@, (value.0@, opt_view(value.1))),
    {
        let lc = crate::text::string_chars(&label);
        let ghost e0 = self.entries@;
        let ghost v = (value.0@, opt_view(value.1));
        let found = self.index_of_label(&lc);
        proof {
            lemma_entry_index(e0, 0, label@);
        }
        match found {
            Some(j) => {
                self.entries.set(j, (label, value));
                proof {
                    let e1 = self.entries@;
                    assert forall|k: Seq<char>| k != label@ implies entry_index(e1, 0, k)
                        == entry_index(e0, 0, k) by {
                        lemma_entry_index(e0, 0, k);
                        lemma_entry_index(e1, 0, k);
                        let a = entry_index(e0, 0, k);
                        let b = entry_index(e1, 0, k);
                        if a != -1 {
                            assert(e1[a] == e0[a]);
                            if b != a {
                                if b == -1 || b > a {
                                    assert(e1[a].0@ == k);
                                } else {
                                    assert(e0[b] == e1[b]);
                                }
                            }
                        } else if b != -1 {
                            assert(e0[b] == e1[b]);
                        }
                    }
                    assert forall|m: int| 0 <= m < j implies e1[m].0@ != label@ by {
                        assert(e1[m] == e0[m]);
                    }
                    lemma_entry_index_unique(e1, 0, label@, j as int);
                    let want = old(self)@.insert(label@, v);
                    assert(self@.dom() =~= want.dom());
                    assert forall|k: Seq<char>| #[trigger] self@.contains_key(k) implies self@[k] == want[k] by {
                        if k != label@ {
                            lemma_entry_index(e0, 0, k);
                            let a = entry_index(e0, 0, k);
                            assert(a != j);
                            assert(e1[a] == e0[a]);
                        }
                    }
                    assert(self@ =~= want);
                }
            },
            None => {
                self.entries.push((label, value));
                proof {
                    let e1 = self.entries@;
                    let n = e0.len() as int;
                    assert forall|k: Seq<char>| k != label@ implies entry_index(e1, 0, k)
                        == entry_index(e0, 0, k) by {
                        lemma_entry_index(e0, 0, k);
                        lemma_entry_index(e1, 0, k);
                        let a = entry_index(e0, 0, k);
                        let b = entry_index(e1, 0, k);
                        if a != -1 {
                            assert(e1[a] == e0[a]);
                            if b != a {
                                if b == -1 || b > a {
                                    assert(e1[a].0@ == k);
                                } else {
                                    assert(e0[b] == e1[b]);
                                }
                            }
                        } else if b != -1 {
                            if b < n {
                                assert(e0[b] == e1[b]);
                            } else {
                                assert(e1[b].0@ == label@);
                            }
                        }
                    }
                    assert forall|m: int| 0 <= m < n implies e1[m].0@ != label@ by {
                        assert(e1[m] == e0[m]);
                    }
                    lemma_entry_index_unique(e1, 0, label@, n);
                    let want = old(self)@.insert(label@, v);
                    assert(self@.dom() =~= want.dom());
                    assert forall|k: Seq<char>| #[trigger] self@.contains_key(k) implies self@[k] == want[k] by {
                        if k != label@ {
                            lemma_entry_index(e0, 0, k);
                            let a = entry_index(e0, 0, k);
                            assert(a < n);
                            assert(e1[a] == e0[a]);
                        }
                    }
                    assert(self@ =~= want);
                }
            },
        }
    }

    /// The URL and title stored for `label`.
    pub fn lookup(&self, label: &[char]) -> (r: Option<(String, Option<String>)>)
        ensures
            match r {
                Some(v) => self@.contains_key(label@) && self@[label@] == (v.0@, opt_view(v.1)),
                None => !self@.contains_key(label@),
            },
    {
        match self.index_of_label(label) {
            Some(j) => {
                let (url, title) = &self.entries[j].1;
                let url2 = url.clone();
                let title2 = match title {
                    Some(t) => Some(t.clone()),
                    None => None,
                };
                Some((url2, title2))
            },
            None => None,
        }
    }
}

/// Whether the characters of `a` are `b`.
fn chars_equal(a: &String, b: &[char]) -> (r: bool)
    ensures
        r == (a@ == b@),
{
    let x = crate::text::string_chars(a);
    if x.len() != b.len() {
        return false;
    }
    let mut i: usize = 0;
    while i < x.len()
        invariant
            i <= x@.len() == b@.len(),
            x@ == a@,
            forall|k: int| 0 <= k < i ==> x@[k] == b@[k],
        decreases x@.len() - i,
    {
        if x[i] != b[i] {
            assert(x@[i as int] != b@[i as int]);
            return false;
        }
        i += 1;
    }
    assert(x@ =~= b@);
    true
}

// ---------------------------------------------------------------------------
// Positions
// ---------------------------------------------------------------------------

/// Precomputed mapping from char index to source position within an inline
/// input string.  Positions are relative to that string.
pub struct InlineCtx {
    /// `line_starts_char[l]` = char index at which line `l` begins.
    line_starts_char: Vec<usize>,
    /// `char_byte_offsets[i]` = byte offset of `chars[i]`.
    char_byte_offsets: Vec<usize>,
    /// The byte length of the text.
    total_bytes: usize,
}

/// Line starts (as char indices) of `s`: 0, then one past every `\n`.
pub open spec fn char_line_starts(s: Seq<char>) -> Seq<usize>
    decreases s.len(),
{
    if s.len() == 0 {
        seq![0usize]
    } else {
        let p = char_line_starts(s.drop_last());
        if s.last() == '\n' {
            p.push(s.len() as usize)
        } else {
            p
        }
    }
}

/// Byte offset of each character of `s`.
pub open spec fn byte_offsets(s: Seq<char>) -> Seq<usize> {
    Seq::new(s.len(), |i: int| utf8_len(s.take(i)) as usize)
}

/// The number of line starts that are at most `i`.
pub open spec fn starts_upto(ls: Seq<usize>, i: int) -> nat
    decreases ls.len(),
{
    if ls.len() == 0 {
        0
    } else {
        starts_upto(ls.drop_last(), i) + if ls.last() <= i {
            1nat
        } else {
            0nat
        }
    }
}

/// The position of char index `i` (capped at `n`, the char count) in text
/// whose line starts, character byte offsets and byte length are `ls`,
/// `offs` and `total`: the line holding `i`, the column within it, and the
/// byte offset (the byte length past the last character).
pub open spec fn position_spec(ls: Seq<usize>, offs: Seq<usize>, total: int, i: int, n: int) -> Position {
    let i = if i < n { i } else { n };
    let c = starts_upto(ls, i);
    let line = if c == 0 { 0 } else { c - 1 };
    let offset = if i < offs.len() { offs[i] as int } else { total };
    Position { line: line as usize, column: (i - ls[line as int]) as usize, offset: offset as usize }
}

impl InlineCtx {
    /// The context is built from `s`.
    pub open spec fn built_from(&self, s: Seq<char>) -> bool {
        &&& self.spec_line_starts() == char_line_starts(s)
        &&& self.spec_offsets() == byte_offsets(s)
        &&& self.spec_total() == utf8_len(s)
    }

    pub closed spec fn spec_line_starts(&self) -> Seq<usize> {
        self.line_starts_char@
    }

    pub closed spec fn spec_offsets(&self) -> Seq<usize> {
        self.char_byte_offsets@
    }

    pub closed spec fn spec_total(&self) -> int {
        self.total_bytes as int
    }

    fn new(chars: &[char]) -> (r: Self)
        requires
            utf8_len(chars@) <= usize::MAX,
        ensures
            r.built_from(chars@),
            r.wf(),
    {
        let len = chars.len();
        proof {
            lemma_char_line_starts(chars@);
            lemma_byte_offsets_mono(chars@);
        }
        let mut line_starts_char: Vec<usize> = Vec::new();
        line_starts_char.push(0);
        let mut char_byte_offsets: Vec<usize> = Vec::new();
        let mut byte: usize = 0;
        let mut k: usize = 0;
        while k < chars.len()
            invariant
                k <= chars@.len(),
                utf8_len(chars@) <= usize::MAX,
                line_starts_char@ == char_line_starts(chars@.take(k as int)),
                char_byte_offsets@ == byte_offsets(chars@.take(k as int)),
                byte == utf8_len(chars@.take(k as int)),
            decreases chars@.len() - k,
        {
            let c = chars[k];
            let ghost p = chars@.take(k as int);
            let ghost q = chars@.take(k + 1);
            proof {
                assert(q.drop_last() =~= p);
                assert(q =~= p + seq![c]);
                lemma_utf8_len_append(p, seq![c]);
                lemma_utf8_len_single(c);
                lemma_utf8_len_sub(chars@, 0, k + 1);
            }
            char_byte_offsets.push(byte);
            if c == '\n' {
                line_starts_char.push(k + 1);
            }
            byte = byte + len_utf8(c);
            k += 1;
            proof {
                assert forall|m: int| 0 <= m < q.len() implies #[trigger] byte_offsets(q)[m]
                    == char_byte_offsets@[m] by {
                    if m < p.len() {
                        assert(q.take(m) =~= p.take(m));
                    } else {
                        assert(q.take(m) =~= p);
                    }
                }
                assert(byte_offsets(q) =~= char_byte_offsets@);
            }
        }
        assert(chars@.take(chars@.len() as int) =~= chars@);
        InlineCtx { line_starts_char, char_byte_offsets, total_bytes: byte }
    }

    /// The line starts begin at 0 and increase; the byte offsets never decrease.
    pub open spec fn wf(&self) -> bool {
        &&& self.spec_line_starts().len() > 0
        &&& self.spec_line_starts()[0] == 0
        &&& forall|a: int, b: int|
            0 <= a < b < self.spec_line_starts().len() ==> self.spec_line_starts()[a]
                < self.spec_line_starts()[b]
        &&& forall|a: int, b: int|
            0 <= a <= b < self.spec_offsets().len() ==> self.spec_offsets()[a]
                <= self.spec_offsets()[b]
    }

    /// Position at the given char index (clamped to `chars_len`).
    pub fn position(&self, i: usize, chars_len: usize) -> (r: Position)
        requires
            self.wf(),
        ensures
            r == position_spec(self.spec_line_starts(), self.spec_offsets(), self.spec_total(), i as int, chars_len as int),
    {
        let i = if i < chars_len { i } else { chars_len };
        let ls = &self.line_starts_char;
        let mut line: usize = 0;
        let mut k: usize = 1;
        proof {
            lemma_starts_upto_prefix(ls@, i as int, 1);
        }
        while k < ls.len() && ls[k] <= i
            invariant
                1 <= k <= ls@.len(),
                line == k - 1,
                ls@ == self.spec_line_starts(),
                ls@[0] == 0,
                forall|a: int, b: int| 0 <= a < b < ls@.len() ==> ls@[a] < ls@[b],
                ls@[line as int] <= i,
                starts_upto(ls@.take(k as int), i as int) == k,
            decreases ls@.len() - k,
        {
            proof {
                lemma_starts_upto_step(ls@, i as int, k as int);
            }
            line = k;
            k += 1;
        }
        proof {
            lemma_starts_upto_rest(ls@, i as int, k as int);
        }
        let column = i - ls[line];
        let offs = &self.char_byte_offsets;
        let offset = if i < offs.len() {
            offs[i]
        } else {
            self.total_bytes
        };
        Position { line, column, offset }
    }
}

pub proof fn lemma_char_line_starts(s: Seq<char>)
    requires
        s.len() <= usize::MAX,
    ensures
        char_line_starts(s).len() > 0,
        char_line_starts(s)[0] == 0,
        forall|a: int, b: int|
            0 <= a < b < char_line_starts(s).len() ==> char_line_starts(s)[a] < char_line_starts(s)[b],
        forall|a: int| 0 <= a < char_line_starts(s).len() ==> char_line_starts(s)[a] <= s.len(),
    decreases s.len(),
{
    if s.len() > 0 {
        lemma_char_line_starts(s.drop_last());
        let p = char_line_starts(s.drop_last());
        if s.last() == '\n' {
            let q = p.push(s.len() as usize);
            assert forall|a: int, b: int| 0 <= a < b < q.len() implies q[a] < q[b] by {
                if b < p.len() {
                    assert(q[a] == p[a] && q[b] == p[b]);
                } else {
                    assert(q[a] == p[a]);
                    assert(p[a] <= s.len() - 1);
                }
            }
        }
    }
}

pub proof fn lemma_byte_offsets_mono(s: Seq<char>)
    requires
        utf8_len(s) <= usize::MAX,
    ensures
        forall|a: int, b: int|
            0 <= a <= b < byte_offsets(s).len() ==> byte_offsets(s)[a] <= byte_offsets(s)[b],
{
    assert forall|a: int, b: int| 0 <= a <= b < byte_offsets(s).len() implies byte_offsets(s)[a]
        <= byte_offsets(s)[b] by {
        lemma_utf8_len_append(s.take(a), s.subrange(a, b));
        assert(s.take(a) + s.subrange(a, b) =~= s.take(b));
        lemma_utf8_len_sub(s, 0, b);
        assert(s.subrange(0, b) =~= s.take(b));
        lemma_utf8_len_sub(s, 0, a);
        assert(s.subrange(0, a) =~= s.take(a));
    }
}

pub proof fn lemma_starts_upto_prefix(ls: Seq<usize>, i: int, k: int)
    requires
        k == 1,
        ls.len() >= 1,
        ls[0] == 0,
        i >= 0,
    ensures
        starts_upto(ls.take(k), i) == 1,
{
    let t = ls.take(1);
    assert(t.drop_last() =~= Seq::<usize>::empty());
    assert(starts_upto(Seq::<usize>::empty(), i) == 0);
    assert(t.last() == ls[0]);
}

pub proof fn lemma_starts_upto_step(ls: Seq<usize>, i: int, k: int)
    requires
        0 < k < ls.len(),
        ls[k] <= i,
        starts_upto(ls.take(k), i) == k,
    ensures
        starts_upto(ls.take(k + 1), i) == k + 1,
{
    assert(ls.take(k + 1).drop_last() =~= ls.take(k));
}

pub proof fn lemma_starts_upto_rest(ls: Seq<usize>, i: int, k: int)
    requires
        0 < k <= ls.len(),
        k < ls.len() ==> ls[k] > i,
        forall|a: int, b: int| 0 <= a < b < ls.len() ==> ls[a] < ls[b],
        starts_upto(ls.take(k), i) == k,
    ensures
        starts_upto(ls, i) == k,
    decreases ls.len() - k,
{
    if k < ls.len() {
        lemma_starts_upto_none(ls, i, k, ls.len() as int);
        assert(ls.take(ls.len() as int) =~= ls);
    } else {
        assert(ls.take(k) =~= ls);
    }
}

pub proof fn lemma_starts_upto_none(ls: Seq<usize>, i: int, k: int, m: int)
    requires
        0 < k < ls.len(),
        k <= m <= ls.len(),
        ls[k] > i,
        forall|a: int, b: int| 0 <= a < b < ls.len() ==> ls[a] < ls[b],
        starts_upto(ls.take(k), i) == k,
    ensures
        starts_upto(ls.take(m), i) == k,
    decreases m - k,
{
    if m > k {
        lemma_starts_upto_none(ls, i, k, m - 1);
        assert(ls.take(m).drop_last() =~= ls.take(m - 1));
        assert(ls[m - 1] >= ls[k]);
    }
}


// ---------------------------------------------------------------------------
// Matchers
// ---------------------------------------------------------------------------

/// `s[k..k+n]` is `n` backticks.
pub open spec fn ticks_at(s: Seq<char>, k: int, n: int) -> bool {
    0 <= k && k + n <= s.len() && forall|j: int| 0 <= j < n ==> #[trigger] s[k + j] == '`'
}

/// The first index at or after `k` where `n` backticks start, or -1.
pub open spec fn first_ticks(s: Seq<char>, k: int, n: int) -> int
    decreases s.len() - k,
{
    if k < 0 || k + n > s.len() {
        -1
    } else if ticks_at(s, k, n) {
        k
    } else {
        first_ticks(s, k + 1, n)
    }
}

/// The code of an inline code span opened by `ticks` backticks at `start`,
/// and where the parser resumes: the text after the opening run up to the
/// first run of `ticks` backticks; the resume index counts the code in bytes.
pub open spec fn inline_code_spec(s: Seq<char>, start: int, ticks: int) -> Option<(Seq<char>, int)> {
    let rest = s.skip(start + ticks);
    let p = first_ticks(rest, 0, ticks);
    if p < 0 {
        None
    } else {
        let end = start + ticks + utf8_len(rest.take(p)) + ticks;
        Some((rest.take(p), if end <= usize::MAX { end } else { usize::MAX as int }))
    }
}

pub proof fn lemma_first_ticks(s: Seq<char>, k: int, n: int)
    requires
        0 <= k,
        n >= 1,
    ensures
        first_ticks(s, k, n) == -1 || (k <= first_ticks(s, k, n) && ticks_at(s, first_ticks(s, k, n), n)),
        forall|j: int|
            k <= j && (first_ticks(s, k, n) == -1 || j < first_ticks(s, k, n)) ==> !ticks_at(s, j, n),
    decreases s.len() - k,
{
    if k + n <= s.len() && !ticks_at(s, k, n) {
        lemma_first_ticks(s, k + 1, n);
    }
}

/// Whether `n` backticks start at `k`.
fn ticks_at_exec(s: &[char], k: usize, n: usize) -> (b: bool)
    requires
        k <= s@.len(),
    ensures
        b == ticks_at(s@, k as int, n as int),
{
    let len = s.len();
    if n > len - k {
        return false;
    }
    let mut j: usize = 0;
    while j < n
        invariant
            j <= n <= s@.len() - k,
            k + n <= s@.len(),
            len == s@.len(),
            k <= s@.len(),
            forall|m: int| 0 <= m < j ==> #[trigger] s@[k + m] == '`',
        decreases n - j,
    {
        if s[k + j] != '`' {
            return false;
        }
        j += 1;
    }
    true
}

/// `match_inline_code`: an inline code span opened by `tick_count` backticks.
fn match_inline_code(chars: &[char], start: usize, tick_count: usize) -> (r: Option<(String, usize)>)
    requires
        1 <= tick_count,
        start + tick_count <= chars@.len(),
        utf8_len(chars@) <= usize::MAX,
    ensures
        match (r, inline_code_spec(chars@, start as int, tick_count as int)) {
            (Some((c, e)), Some((c2, e2))) => c@ == c2 && e == e2,
            (None, None) => true,
            _ => false,
        },
{
    let len = chars.len();
    let base = start + tick_count;
    let ghost rest = chars@.skip(base as int);
    let mut k = base;
    proof {
        lemma_first_ticks(rest, 0, tick_count as int);
    }
    while k < chars.len() && !ticks_at_exec(chars, k, tick_count)
        invariant
            base <= k <= chars@.len(),
            rest == chars@.skip(base as int),
            tick_count >= 1,
            forall|j: int| base <= j < k ==> !ticks_at(chars@, j, tick_count as int),
        decreases chars@.len() - k,
    {
        k += 1;
    }
    proof {
        assert forall|j: int| 0 <= j < k - base implies !ticks_at(rest, j, tick_count as int) by {
            if ticks_at(rest, j, tick_count as int) {
                assert forall|m: int| 0 <= m < tick_count implies #[trigger] chars@[base + j + m] == '`' by {
                    assert(rest[j + m] == chars@[base + j + m]);
                }
                assert(ticks_at(chars@, base + j, tick_count as int));
            }
        }
    }
    if k >= chars.len() {
        proof {
            let p = first_ticks(rest, 0, tick_count as int);
            if p != -1 {
                assert(ticks_at(rest, p, tick_count as int));
                assert(p + tick_count <= rest.len());
            }
        }
        return None;
    }
    proof {
        assert(ticks_at(chars@, k as int, tick_count as int));
        assert(ticks_at(rest, k - base, tick_count as int)) by {
            assert forall|m: int| 0 <= m < tick_count implies #[trigger] rest[k - base + m] == '`' by {
                assert(rest[k - base + m] == chars@[k + m]);
            }
        }
        let p = first_ticks(rest, 0, tick_count as int);
        assert(p == k - base);
        assert(rest.take(p) =~= chars@.subrange(base as int, k as int));
        lemma_utf8_len_sub(chars@, base as int, k as int);
    }
    let code = string_of(chars, base, k);
    let bytes = crate::text::utf8_len_of(chars, base, k);
    let end = base.saturating_add(bytes).saturating_add(tick_count);
    Some((code, end))
}

/// Scan for the bracket closing an `open` at depth `depth`, from `i`.
pub open spec fn bracket_scan(s: Seq<char>, i: int, depth: int, open: char, close: char) -> Option<int>
    decreases s.len() - i,
{
    if i < 0 || i >= s.len() {
        None
    } else if s[i] == open {
        bracket_scan(s, i + 1, depth + 1, open, close)
    } else if s[i] == close {
        if depth - 1 == 0 {
            Some(i)
        } else {
            bracket_scan(s, i + 1, depth - 1, open, close)
        }
    } else {
        bracket_scan(s, i + 1, depth, open, close)
    }
}

pub proof fn lemma_bracket_scan(s: Seq<char>, i: int, depth: int, open: char, close: char)
    requires
        0 <= i,
    ensures
        bracket_scan(s, i, depth, open, close) matches Some(j) ==> i <= j < s.len() && s[j] == close,
    decreases s.len() - i,
{
    if i < s.len() {
        lemma_bracket_scan(s, i + 1, depth + 1, open, close);
        lemma_bracket_scan(s, i + 1, depth - 1, open, close);
        lemma_bracket_scan(s, i + 1, depth, open, close);
    }
}

/// Scan for the closing bracket of the `open` at `start`.
fn scan_bracket(chars: &[char], start: usize, open: char, close: char) -> (r: Option<usize>)
    requires
        start < chars@.len(),
        open != close,
    ensures
        match (r, bracket_scan(chars@, start + 1, 1, open, close)) {
            (Some(j), Some(k)) => j == k,
            (None, None) => true,
            _ => false,
        },
        r matches Some(j) ==> start < j < chars@.len() && chars@[j as int] == close,
{
    proof {
        lemma_bracket_scan(chars@, start + 1, 1, open, close);
    }
    let len = chars.len();
    let mut depth: usize = 1;
    let mut i = start + 1;
    while i < chars.len()
        invariant
            start < i <= chars@.len(),
            1 <= depth <= i - start,
            open != close,
            bracket_scan(chars@, start + 1, 1, open, close) == bracket_scan(chars@, i as int, depth as int, open, close),
        decreases chars@.len() - i,
    {
        let c = chars[i];
        if c == open {
            depth += 1;
        } else if c == close {
            depth -= 1;
            if depth == 0 {
                return Some(i);
            }
        }
        i += 1;
    }
    None
}

/// `match_bracket`: the text between the `[` at `start` and its closing `]`,
/// and the index after the `]`.
fn match_bracket(chars: &[char], start: usize) -> (r: Option<(String, usize)>)
    requires
        start < chars@.len(),
        chars@[start as int] == '[',
    ensures
        match (r, bracket_scan(chars@, start + 1, 1, '[', ']')) {
            (Some((t, e)), Some(j)) => t@ == chars@.subrange(start + 1, j) && e == j + 1,
            (None, None) => true,
            _ => false,
        },
        r matches Some((t, e)) ==> start + 2 <= e <= chars@.len() && t@.len() == e - start - 2,
{
    let len = chars.len();
    match scan_bracket(chars, start, '[', ']') {
        Some(j) => Some((string_of(chars, start + 1, j), j + 1)),
        None => None,
    }
}

/// Index of the last `c` in `s`, or -1.
pub open spec fn rindex(s: Seq<char>, c: char) -> int
    decreases s.len(),
{
    if s.len() == 0 {
        -1
    } else if s.last() == c {
        s.len() - 1
    } else {
        rindex(s.drop_last(), c)
    }
}

pub proof fn lemma_rindex(s: Seq<char>, c: char)
    ensures
        -1 <= rindex(s, c) < s.len(),
        rindex(s, c) >= 0 ==> s[rindex(s, c)] == c,
        forall|k: int| rindex(s, c) < k < s.len() ==> s[k] != c,
    decreases s.len(),
{
    if s.len() > 0 && s.last() != c {
        lemma_rindex(s.drop_last(), c);
        assert forall|k: int| rindex(s, c) < k < s.len() implies s[k] != c by {
            if k < s.len() - 1 {
                assert(s[k] == s.drop_last()[k]);
            }
        }
    }
}

/// Split `url  "title"` (or `url 'title'`) into URL and title.
pub open spec fn link_dest_spec(raw: Seq<char>) -> (Seq<char>, Option<Seq<char>>) {
    let t = trim(raw);
    let q1 = rindex(t.drop_last(), '"');
    let q2 = rindex(t.drop_last(), '\'');
    if t.len() > 0 && t.last() == '"' && q1 >= 0 {
        (trim(t.take(q1)), Some(trim(t.subrange(q1 + 1, t.len() - 1))))
    } else if t.len() > 0 && t.last() == '\'' && q2 >= 0 {
        (trim(t.take(q2)), Some(trim(t.subrange(q2 + 1, t.len() - 1))))
    } else {
        (t, None)
    }
}

/// Last index of `c` in `s[from..to]`, if any.
fn rfind_char(s: &[char], from: usize, to: usize, c: char) -> (r: Option<usize>)
    requires
        from <= to <= s@.len(),
    ensures
        match r {
            Some(k) => from <= k < to && k - from == rindex(s@.subrange(from as int, to as int), c),
            None => rindex(s@.subrange(from as int, to as int), c) == -1,
        },
{
    let mut k = to;
    let ghost t = s@.subrange(from as int, to as int);
    assert(t.take(to - from) =~= t);
    while k > from
        invariant
            from <= k <= to <= s@.len(),
            t == s@.subrange(from as int, to as int),
            rindex(t, c) == rindex(t.take(k - from), c),
        decreases k - from,
    {
        let ghost u = t.take(k - from);
        assert(u.last() == s@[k - 1]);
        assert(u.drop_last() =~= t.take(k - 1 - from));
        if s[k - 1] == c {
            return Some(k - 1);
        }
        k -= 1;
    }
    assert(t.take(0) =~= Seq::<char>::empty());
    None
}

/// `parse_link_dest` on `s[from..to]`.
fn parse_link_dest(s: &[char], from: usize, to: usize) -> (r: (String, Option<String>))
    requires
        from <= to <= s@.len(),
    ensures
        (r.0@, opt_view(r.1)) == link_dest_spec(s@.subrange(from as int, to as int)),
{
    let (a, b) = trim_bounds(s, from, to);
    let ghost t = trim(s@.subrange(from as int, to as int));
    assert(t =~= s@.subrange(a as int, b as int));
    if a < b && (s[b - 1] == '"' || s[b - 1] == '\'') {
        let q = s[b - 1];
        assert(t.drop_last() =~= s@.subrange(a as int, b - 1));
        match rfind_char(s, a, b - 1, q) {
            Some(k) => {
                let (u0, u1) = trim_bounds(s, a, k);
                let (v0, v1) = trim_bounds(s, k + 1, b - 1);
                assert(t.take(k - a) =~= s@.subrange(a as int, k as int));
                assert(t.subrange(k - a + 1, t.len() - 1) =~= s@.subrange(k + 1, b - 1));
                proof {
                    if q == '\'' {
                        assert(t.last() != '"');
                    }
                }
                return (string_of(s, u0, u1), Some(string_of(s, v0, v1)));
            },
            None => {
                proof {
                    if q == '\'' {
                        assert(t.last() != '"');
                    } else {
                        assert(t.last() != '\'');
                    }
                }
            },
        }
    }
    (string_of(s, a, b), None)
}

/// `match_paren`: URL and title between the `(` at `start` and its closing
/// `)`, and the index after the `)`.
fn match_paren(chars: &[char], start: usize) -> (r: Option<(String, Option<String>, usize)>)
    requires
        start <= chars@.len(),
    ensures
        match r {
            Some((u, t, e)) => start < chars@.len() && chars@[start as int] == '(' && (bracket_scan(chars@, start + 1, 1, '(', ')')
                == Some(e - 1)) && (u@, opt_view(t)) == link_dest_spec(chars@.subrange(start + 1, e - 1))
                && start + 2 <= e <= chars@.len(),
            None => start >= chars@.len() || chars@[start as int] != '(' || bracket_scan(chars@, start + 1, 1, '(', ')') is None,
        },
{
    if start >= chars.len() || chars[start] != '(' {
        return None;
    }
    match scan_bracket(chars, start, '(', ')') {
        Some(j) => {
            let (url, title) = parse_link_dest(chars, start + 1, j);
            Some((url, title, j + 1))
        },
        None => None,
    }
}

/// The first index at or after `i` where a run of at least `count` `marker`
/// characters starts (runs shorter than `count` are skipped whole).
pub open spec fn emph_close(s: Seq<char>, i: int, marker: char, count: nat) -> Option<int>
    decreases s.len() - i,
{
    if i < 0 || i >= s.len() {
        None
    } else if s[i] == marker {
        let r = run_len(s, i, marker);
        if r >= count {
            Some(i)
        } else if r >= 1 && i + r <= s.len() {
            emph_close(s, i + r, marker, count)
        } else {
            None
        }
    } else {
        emph_close(s, i + 1, marker, count)
    }
}

pub proof fn lemma_run_len_bound(s: Seq<char>, i: int, c: char)
    requires
        0 <= i <= s.len(),
    ensures
        i + run_len(s, i, c) <= s.len(),
        i < s.len() && s[i] == c ==> run_len(s, i, c) >= 1,
    decreases s.len() - i,
{
    if i < s.len() && s[i] == c {
        lemma_run_len_bound(s, i + 1, c);
    }
}

pub proof fn lemma_emph_close(s: Seq<char>, i: int, marker: char, count: nat)
    requires
        0 <= i,
    ensures
        emph_close(s, i, marker, count) matches Some(j) ==> i <= j < s.len() && s[j] == marker
            && j + count <= s.len(),
    decreases s.len() - i,
{
    if 0 <= i < s.len() {
        lemma_run_len_bound(s, i, marker);
        if s[i] == marker {
            let r = run_len(s, i, marker);
            if r < count && r >= 1 {
                lemma_emph_close(s, i + r, marker, count);
            }
        } else {
            lemma_emph_close(s, i + 1, marker, count);
        }
    }
}

/// `find_emphasis_close`.
fn find_emphasis_close(chars: &[char], from: usize, marker: char, count: usize) -> (r: Option<usize>)
    requires
        from <= chars@.len(),
    ensures
        match (r, emph_close(chars@, from as int, marker, count as nat)) {
            (Some(j), Some(k)) => j == k,
            (None, None) => true,
            _ => false,
        },
        r matches Some(j) ==> from <= j < chars@.len() && j + count <= chars@.len(),
{
    proof {
        lemma_emph_close(chars@, from as int, marker, count as nat);
    }
    let mut i = from;
    while i < chars.len()
        invariant
            from <= i <= chars@.len(),
            emph_close(chars@, from as int, marker, count as nat) == emph_close(chars@, i as int, marker, count as nat),
        decreases chars@.len() - i,
    {
        if chars[i] == marker {
            let run = count_run(chars, i, marker);
            proof {
                lemma_run_len_bound(chars@, i as int, marker);
            }
            if run >= count {
                return Some(i);
            }
            i += run;
            continue;
        }
        i += 1;
    }
    None
}

/// The index just past a raw inline HTML construct starting with the `<` at
/// `start`: a comment `<!...-->`, or a (closing) tag `<a ...>` / `</a>`.
pub open spec fn html_end(s: Seq<char>, start: int) -> Option<int> {
    if start + 1 >= s.len() {
        None
    } else if s[start + 1] == '!' {
        let p = window_from(s, start);
        if p >= 0 {
            Some(p + 3)
        } else {
            None
        }
    } else {
        let i = if s[start + 1] == '/' { start + 2 } else { start + 1 };
        if i >= s.len() {
            None
        } else if is_alpha(s[i]) {
            let g = index_of_from(s, i, '>');
            if g < s.len() {
                Some(g + 1)
            } else {
                None
            }
        } else {
            None
        }
    }
}

/// `-->` starts at `k`.
pub open spec fn arrow_at(s: Seq<char>, k: int) -> bool {
    0 <= k && k + 3 <= s.len() && s[k] == '-' && s[k + 1] == '-' && s[k + 2] == '>'
}

/// The first index at or after `k` where `-->` starts, or -1.
pub open spec fn window_from(s: Seq<char>, k: int) -> int
    decreases s.len() - k,
{
    if k < 0 || k + 3 > s.len() {
        -1
    } else if arrow_at(s, k) {
        k
    } else {
        window_from(s, k + 1)
    }
}

pub proof fn lemma_window_from(s: Seq<char>, k: int)
    requires
        0 <= k,
    ensures
        window_from(s, k) == -1 || (k <= window_from(s, k) && arrow_at(s, window_from(s, k))),
    decreases s.len() - k,
{
    if k + 3 <= s.len() && !arrow_at(s, k) {
        lemma_window_from(s, k + 1);
    }
}

/// `match_inline_html`.
fn match_inline_html(chars: &[char], start: usize) -> (r: Option<usize>)
    requires
        start < chars@.len(),
        chars@[start as int] == '<',
    ensures
        match (r, html_end(chars@, start as int)) {
            (Some(e), Some(k)) => e == k,
            (None, None) => true,
            _ => false,
        },
        r matches Some(e) ==> start < e <= chars@.len(),
{
    let n = chars.len();
    if start + 1 >= n {
        return None;
    }
    if chars[start + 1] == '!' {
        let mut k = start;
        proof {
            lemma_window_from(chars@, start as int);
        }
        while k < n && n - k >= 3
            invariant
                start <= k <= n,
                n == chars@.len(),
                start + 1 < n,
                chars@[start + 1] == '!',
                window_from(chars@, start as int) == window_from(chars@, k as int),
            decreases n - k,
        {
            if chars[k] == '-' && chars[k + 1] == '-' && chars[k + 2] == '>' {
                assert(arrow_at(chars@, k as int));
                assert(window_from(chars@, k as int) == k);
                return Some(k + 3);
            }
            k += 1;
        }
        return None;
    }
    let i = if chars[start + 1] == '/' { start + 2 } else { start + 1 };
    if i >= n {
        return None;
    }
    if is_ascii_alphabetic(chars[i]) {
        let g = crate::text::find_char(chars, i, n, '>');
        proof {
            let t = chars@.subrange(i as int, n as int);
            lemma_index_of_from(chars@, i as int, '>');
            lemma_index_of_from(t, 0, '>');
            let g1 = index_of_from(chars@, i as int, '>');
            if g1 < g {
                assert(chars@[g1] == '>');
            }
            if g < g1 && g < n {
                assert(chars@[g as int] == '>');
            }
        }
        if g < n {
            return Some(g + 1);
        }
    }
    None
}

/// The end of the URL of a GFM autolink starting at `i`: the run of
/// characters that are neither whitespace nor `<`.
pub open spec fn url_end(s: Seq<char>, i: int) -> int
    decreases s.len() - i,
{
    if 0 <= i < s.len() && !is_ws(s[i]) && s[i] != '<' {
        url_end(s, i + 1)
    } else {
        i
    }
}

/// Length of the autolink scheme prefix (`https://`, `http://`, `www.`) at `i`, or 0.
pub open spec fn autolink_prefix(s: Seq<char>, i: int) -> int {
    let t = s.skip(i);
    if starts_with(t, seq!['h', 't', 't', 'p', 's', ':', '/', '/']) {
        8
    } else if starts_with(t, seq!['h', 't', 't', 'p', ':', '/', '/']) {
        7
    } else if starts_with(t, seq!['w', 'w', 'w', '.']) {
        4
    } else {
        0
    }
}

/// The end of a GFM autolink (bare URL) starting at `i`.
pub open spec fn autolink_spec(s: Seq<char>, i: int) -> Option<int> {
    let p = autolink_prefix(s, i);
    let e = url_end(s, i);
    if p > 0 && e > i + p {
        Some(e)
    } else {
        None
    }
}

pub proof fn lemma_url_end(s: Seq<char>, i: int)
    requires
        0 <= i <= s.len(),
    ensures
        i <= url_end(s, i) <= s.len(),
    decreases s.len() - i,
{
    if i < s.len() && !is_ws(s[i]) && s[i] != '<' {
        lemma_url_end(s, i + 1);
    }
}

/// `match_autolink`: a bare URL starting at `i`.
fn match_autolink(chars: &[char], i: usize) -> (r: Option<(String, usize)>)
    requires
        i < chars@.len(),
    ensures
        match (r, autolink_spec(chars@, i as int)) {
            (Some((u, e)), Some(e2)) => e == e2 && u@ == chars@.subrange(i as int, e as int),
            (None, None) => true,
            _ => false,
        },
        r matches Some((u, e)) ==> i < e <= chars@.len(),
{
    let n = chars.len();
    assert(chars@.skip(i as int) =~= chars@.subrange(i as int, n as int));
    let p: usize = if crate::parsers::lines::starts_with_chars(chars, i, n, &['h', 't', 't', 'p', 's', ':', '/', '/']) {
        8
    } else if crate::parsers::lines::starts_with_chars(chars, i, n, &['h', 't', 't', 'p', ':', '/', '/']) {
        7
    } else if crate::parsers::lines::starts_with_chars(chars, i, n, &['w', 'w', 'w', '.']) {
        4
    } else {
        0
    };
    if p == 0 {
        return None;
    }
    let mut e = i;
    proof {
        lemma_url_end(chars@, i as int);
    }
    while e < n && !is_whitespace(chars[e]) && chars[e] != '<'
        invariant
            i <= e <= n,
            n == chars@.len(),
            url_end(chars@, i as int) == url_end(chars@, e as int),
        decreases n - e,
    {
        e += 1;
    }
    if e > i + p {
        Some((string_of(chars, i, e), e))
    } else {
        None
    }
}


// ---------------------------------------------------------------------------
// Specification of the inline parser
// ---------------------------------------------------------------------------

/// The value of an inline node: its content and its span.
pub enum Tok {
    /// Text.
    Text(Seq<char>, Span),
    /// Emphasis and its content.
    Emph(EmphasisLevel, Seq<Tok>, Span),
    /// A code span.
    Code(Seq<char>, Span),
    /// Raw inline HTML.
    Html(Seq<char>, Span),
    /// Strikethrough and its content.
    Strike(Seq<Tok>, Span),
    /// A hard line break.
    Hard(Span),
    /// A soft line break.
    Soft(Span),
    /// An image: alt text, URL, title.
    Image(Seq<char>, Seq<char>, Option<Seq<char>>, Span),
    /// A link: text, URL, title, whether it is a bare URL.
    Link(Seq<Tok>, Seq<char>, Option<Seq<char>>, bool, Span),
    /// A reference link: text, label, URL, title.
    LinkRef(Seq<Tok>, Seq<char>, Seq<char>, Option<Seq<char>>, Span),
}

/// The view of an inline node.
pub open spec fn tok_of(i: Inline) -> Tok
    decreases i,
{
    match i {
        Inline::Text { value, pos } => Tok::Text(value@, pos),
        Inline::Emphasis { level, children, pos } => Tok::Emph(level, toks_of(children@), pos),
        Inline::Code { code, pos } => Tok::Code(code@, pos),
        Inline::HtmlInline { html, pos } => Tok::Html(html@, pos),
        Inline::Strikethrough { children, pos } => Tok::Strike(toks_of(children@), pos),
        Inline::HardBreak { pos } => Tok::Hard(pos),
        Inline::SoftBreak { pos } => Tok::Soft(pos),
        Inline::Image { alt, url, title, pos } => Tok::Image(alt@, url@, opt_view(title), pos),
        Inline::Link { text, url, title, autolink, pos } => Tok::Link(
            toks_of(text@),
            url@,
            opt_view(title),
            autolink,
            pos,
        ),
        Inline::LinkReference { text, label, url, title, pos } => Tok::LinkRef(
            toks_of(text@),
            label@,
            url@,
            opt_view(title),
            pos,
        ),
    }
}

/// The views of a sequence of inline nodes.
pub open spec fn toks_of(s: Seq<Inline>) -> Seq<Tok>
    decreases s,
{
    if s.len() == 0 {
        Seq::empty()
    } else {
        toks_of(s.drop_last()).push(tok_of(s.last()))
    }
}

/// The span from char index `a` to char index `b` of the text `s`.
pub open spec fn inline_span(s: Seq<char>, a: int, b: int) -> Span {
    Span {
        start: position_spec(char_line_starts(s), byte_offsets(s), utf8_len(s) as int, a, s.len() as int),
        end: position_spec(char_line_starts(s), byte_offsets(s), utf8_len(s) as int, b, s.len() as int),
    }
}

/// The pending text `buf`, which starts at char index `start` of `s`, as a
/// text node, if there is any.
pub open spec fn flush(s: Seq<char>, buf: Seq<char>, start: int) -> Seq<Tok> {
    if buf.len() == 0 {
        Seq::empty()
    } else {
        seq![Tok::Text(buf, inline_span(s, start, start + buf.len()))]
    }
}

/// The reference definitions as values.
pub open spec fn refs_view(refs: Option<&LinkRefMap>) -> Option<Map<Seq<char>, (Seq<char>, Option<Seq<char>>)>> {
    match refs {
        Some(m) => Some(m@),
        None => None,
    }
}

/// The label range and end of a reference link whose text is closed at
/// `after - 1`: `[text][label]` uses the label, `[text][]` and `[text]`
/// the text.
pub open spec fn label_range(s: Seq<char>, i: int, after: int) -> (int, int, int) {
    if after < s.len() && s[after] == '[' {
        match bracket_scan(s, after + 1, 1, '[', ']') {
            Some(j2) => if j2 + 1 == after + 2 {
                (i + 1, after - 1, j2 + 1)
            } else {
                (after + 1, j2, j2 + 1)
            },
            None => (i + 1, after - 1, after),
        }
    } else {
        (i + 1, after - 1, after)
    }
}

/// The link (inline `[text](url "title")`, else, with reference
/// definitions, a defined reference) starting with the `[` at `i`, and
/// where it ends.
pub open spec fn link_at(
    s: Seq<char>,
    i: int,
    refs: Option<Map<Seq<char>, (Seq<char>, Option<Seq<char>>)>>,
) -> Option<(Tok, int)>
    decreases s.len(), 0int, 0int,
{
    match bracket_scan(s, i + 1, 1, '[', ']') {
        None => None,
        Some(j) => if 0 <= i && i + 1 <= j < s.len() {
            let after = j + 1;
            let kids = scan(s.subrange(i + 1, j), 0, Seq::empty(), true, None);
            if after < s.len() && s[after] == '(' && bracket_scan(s, after + 1, 1, '(', ')') is Some {
                let k = bracket_scan(s, after + 1, 1, '(', ')')->Some_0;
                let d = link_dest_spec(s.subrange(after + 1, k));
                Some((Tok::Link(kids, d.0, d.1, false, inline_span(s, i, k + 1)), k + 1))
            } else {
                match refs {
                    None => None,
                    Some(m) => {
                        let r = label_range(s, i, after);
                        let label = normalize_label_spec(s.subrange(r.0, r.1));
                        if m.contains_key(label) {
                            Some((Tok::LinkRef(kids, label, m[label].0, m[label].1, inline_span(s, i, r.2)), r.2))
                        } else {
                            None
                        }
                    },
                }
            }
        } else {
            None
        },
    }
}

/// The image `![alt](url "title")` starting at `i`, and where it ends.
pub open spec fn image_at(s: Seq<char>, i: int) -> Option<(Tok, int)> {
    match bracket_scan(s, i + 2, 1, '[', ']') {
        None => None,
        Some(j) => {
            let after = j + 1;
            if after < s.len() && s[after] == '(' && bracket_scan(s, after + 1, 1, '(', ')') is Some {
                let k = bracket_scan(s, after + 1, 1, '(', ')')->Some_0;
                let d = link_dest_spec(s.subrange(after + 1, k));
                Some((Tok::Image(s.subrange(i + 2, j), d.0, d.1, inline_span(s, i, k + 1)), k + 1))
            } else {
                None
            }
        },
    }
}

/// The emphasis opened by the `c` run at `i` (bold for a double marker
/// closed by a double marker, else italic), and where it ends.
pub open spec fn emph_at(s: Seq<char>, i: int, c: char) -> Option<(Tok, int)>
    decreases s.len(), 0int, 0int,
{
    if run_len(s, i, c) >= 2 && emph_close(s, i + 2, c, 2) is Some && 0 <= i && i + 2 <= emph_close(
        s,
        i + 2,
        c,
        2,
    )->Some_0 < s.len() {
        let e = emph_close(s, i + 2, c, 2)->Some_0;
        Some(
            (
                Tok::Emph(
                    EmphasisLevel::Bold,
                    scan(s.subrange(i + 2, e), 0, Seq::empty(), true, None),
                    inline_span(s, i, e + 2),
                ),
                e + 2,
            ),
        )
    } else if emph_close(s, i + 1, c, 1) is Some && 0 <= i && i + 1 <= emph_close(s, i + 1, c, 1)->Some_0
        < s.len() {
        let e = emph_close(s, i + 1, c, 1)->Some_0;
        Some(
            (
                Tok::Emph(
                    EmphasisLevel::Italic,
                    scan(s.subrange(i + 1, e), 0, Seq::empty(), true, None),
                    inline_span(s, i, e + 1),
                ),
                e + 1,
            ),
        )
    } else {
        None
    }
}

/// The strikethrough `~~text~~` starting at `i`, and where it ends.
pub open spec fn strike_at(s: Seq<char>, i: int) -> Option<(Tok, int)>
    decreases s.len(), 0int, 0int,
{
    if emph_close(s, i + 2, '~', 2) is Some && 0 <= i && i + 2 <= emph_close(s, i + 2, '~', 2)->Some_0 < s.len() {
        let e = emph_close(s, i + 2, '~', 2)->Some_0;
        Some(
            (
                Tok::Strike(scan(s.subrange(i + 2, e), 0, Seq::empty(), true, None), inline_span(s, i, e + 2)),
                e + 2,
            ),
        )
    } else {
        None
    }
}

/// The construct (other than a line break) starting at `i`, tried in the
/// parser's order, and where it ends.
#[verifier::opaque]
pub open spec fn construct_at(
    s: Seq<char>,
    i: int,
    gfm: bool,
    refs: Option<Map<Seq<char>, (Seq<char>, Option<Seq<char>>)>>,
) -> Option<(Tok, int)>
    decreases s.len(), 0int, 1int,
{
    let n = s.len();
    let c = s[i];
    let code = inline_code_spec(s, i, run_len(s, i, '`') as int);
    if c == '`' && code is Some {
        let (v, e) = code->Some_0;
        Some((Tok::Code(v, inline_span(s, i, e)), if e < n { e } else { n as int }))
    } else if gfm && c == '~' && i + 1 < n && s[i + 1] == '~' && strike_at(s, i) is Some {
        strike_at(s, i)
    } else if c == '!' && i + 1 < n && s[i + 1] == '[' && image_at(s, i) is Some {
        image_at(s, i)
    } else if c == '[' && link_at(s, i, refs) is Some {
        link_at(s, i, refs)
    } else if gfm && (c == 'h' || c == 'w') && autolink_spec(s, i) is Some {
        let e = autolink_spec(s, i)->Some_0;
        Some(
            (
                Tok::Link(
                    seq![Tok::Text(s.subrange(i, e), inline_span(s, i, e))],
                    s.subrange(i, e),
                    None,
                    true,
                    inline_span(s, i, e),
                ),
                e,
            ),
        )
    } else if (c == '*' || c == '_') && emph_at(s, i, c) is Some {
        emph_at(s, i, c)
    } else if c == '<' && html_end(s, i) is Some {
        let e = html_end(s, i)->Some_0;
        Some((Tok::Html(s.subrange(i, e), inline_span(s, i, e)), e))
    } else {
        None
    }
}

/// The inline nodes of `s` from index `i` on, with `buf` the text pending
/// just before `i`: each construct ends the pending text; a line break is
/// hard after two spaces or a backslash (which are dropped) and soft
/// otherwise; any other character joins the pending text.  Each node's
/// span is the char range it covers in `s`; the nodes inside a construct
/// are those of its inner text, spanned within that text.
#[verifier::opaque]
pub open spec fn scan(
    s: Seq<char>,
    i: int,
    buf: Seq<char>,
    gfm: bool,
    refs: Option<Map<Seq<char>, (Seq<char>, Option<Seq<char>>)>>,
) -> Seq<Tok>
    decreases s.len(), 1int, s.len() - i,
{
    let start = i - buf.len();
    if i < 0 || i >= s.len() {
        flush(s, buf, start)
    } else {
        match construct_at(s, i, gfm, refs) {
            Some((t, e)) => if i < e <= s.len() {
                flush(s, buf, start) + seq![t] + scan(s, e, Seq::empty(), gfm, refs)
            } else {
                flush(s, buf, start)
            },
            None => if s[i] == '\n' {
                let br = inline_span(s, i, i + 1);
                if buf.len() >= 2 && buf[buf.len() - 1] == ' ' && buf[buf.len() - 2] == ' ' {
                    flush(s, buf.take(buf.len() - 2), start) + seq![Tok::Hard(br)] + scan(
                        s,
                        i + 1,
                        Seq::empty(),
                        gfm,
                        refs,
                    )
                } else if buf.len() >= 1 && buf[buf.len() - 1] == '\\' {
                    flush(s, buf.take(buf.len() - 1), start) + seq![Tok::Hard(br)] + scan(
                        s,
                        i + 1,
                        Seq::empty(),
                        gfm,
                        refs,
                    )
                } else {
                    flush(s, buf, start) + seq![Tok::Soft(br)] + scan(s, i + 1, Seq::empty(), gfm, refs)
                }
            } else {
                scan(s, i + 1, buf.push(s[i]), gfm, refs)
            },
        }
    }
}

// ---------------------------------------------------------------------------
// The inline parser
// ---------------------------------------------------------------------------

/// Characters at which an inline construct may start.
pub open spec fn special_char(c: char) -> bool {
    c == '`' || c == '~' || c == '!' || c == '[' || c == '*' || c == '_' || c == '\n' || c == '<'
}

/// Text with no inline construct: no character at which a construct may
/// start and (with GFM) no bare URL.
pub open spec fn plain_text(s: Seq<char>, gfm: bool) -> bool {
    forall|k: int| 0 <= k < s.len() ==> !special_char(#[trigger] s[k]) && (gfm ==> autolink_spec(s, k) is None)
}

/// A span from char index `a` to char index `b` of the text of `ctx`.
fn span_at(ctx: &InlineCtx, a: usize, b: usize, n: usize) -> (r: Span)
    requires
        ctx.wf(),
    ensures
        r.start == position_spec(ctx.spec_line_starts(), ctx.spec_offsets(), ctx.spec_total(), a as int, n as int),
        r.end == position_spec(ctx.spec_line_starts(), ctx.spec_offsets(), ctx.spec_total(), b as int, n as int),
        forall|s: Seq<char>| ctx.built_from(s) && n == s.len() ==> r == inline_span(s, a as int, b as int),
{
    Span::new(ctx.position(a, n), ctx.position(b, n))
}

/// `t` is a `Text` node holding `v`.
pub open spec fn text_node(t: Inline, v: Seq<char>) -> bool {
    t matches Inline::Text { value, .. } && value@ == v
}

/// Emit the pending text (if any) as a `Text` node.
fn flush_text(
    tokens: &mut Vec<Inline>,
    text: &mut Vec<char>,
    text_start: usize,
    ctx: &InlineCtx,
    n: usize,
    Ghost(s): Ghost<Seq<char>>,
)
    requires
        ctx.wf(),
        ctx.built_from(s),
        n == s.len(),
        text_start + old(text)@.len() <= usize::MAX,
    ensures
        final(text)@.len() == 0,
        old(text)@.len() == 0 ==> final(tokens)@ == old(tokens)@,
        old(text)@.len() > 0 ==> final(tokens)@.len() == old(tokens)@.len() + 1
            && final(tokens)@.drop_last() == old(tokens)@
            && text_node(final(tokens)@.last(), old(text)@),
        toks_of(final(tokens)@) == toks_of(old(tokens)@) + flush(s, old(text)@, text_start as int),
{
    if text.len() > 0 {
        let end = text_start + text.len();
        let value = string_of(text.as_slice(), 0, text.len());
        assert(text@.subrange(0, text@.len() as int) =~= text@);
        let span = span_at(ctx, text_start, end, n);
        tokens.push(Inline::Text { value, pos: span });
        assert(tokens@.drop_last() =~= old(tokens)@);
        proof {
            lemma_toks_push(old(tokens)@, tokens@.last());
        }
    } else {
        assert(toks_of(old(tokens)@) + flush(s, old(text)@, text_start as int) =~= toks_of(old(tokens)@));
    }
    text.clear();
}

/// The views of a sequence with one more node.
pub proof fn lemma_toks_push(a: Seq<Inline>, x: Inline)
    ensures
        toks_of(a.push(x)) == toks_of(a).push(tok_of(x)),
{
    assert(a.push(x).drop_last() =~= a);
}

/// What `construct_at` is, by the character at `i`.
pub proof fn lemma_construct_at(
    s: Seq<char>,
    i: int,
    gfm: bool,
    refs: Option<Map<Seq<char>, (Seq<char>, Option<Seq<char>>)>>,
)
    requires
        0 <= i < s.len(),
    ensures
        s[i] == '`' ==> construct_at(s, i, gfm, refs) == match inline_code_spec(s, i, run_len(s, i, '`') as int) {
            Some((v, e)) => Some((Tok::Code(v, inline_span(s, i, e)), if e < s.len() { e } else { s.len() as int })),
            None => None,
        },
        s[i] == '~' ==> construct_at(s, i, gfm, refs) == if gfm && i + 1 < s.len() && s[i + 1] == '~' {
            strike_at(s, i)
        } else {
            None
        },
        s[i] == '!' ==> construct_at(s, i, gfm, refs) == if i + 1 < s.len() && s[i + 1] == '[' {
            image_at(s, i)
        } else {
            None
        },
        s[i] == '[' ==> construct_at(s, i, gfm, refs) == link_at(s, i, refs),
        (s[i] == 'h' || s[i] == 'w') ==> construct_at(s, i, gfm, refs) == if gfm && autolink_spec(s, i) is Some {
            let e = autolink_spec(s, i)->Some_0;
            Some(
                (
                    Tok::Link(
                        seq![Tok::Text(s.subrange(i, e), inline_span(s, i, e))],
                        s.subrange(i, e),
                        None,
                        true,
                        inline_span(s, i, e),
                    ),
                    e,
                ),
            )
        } else {
            None
        },
        (s[i] == '*' || s[i] == '_') ==> construct_at(s, i, gfm, refs) == emph_at(s, i, s[i]),
        s[i] == '<' ==> construct_at(s, i, gfm, refs) == match html_end(s, i) {
            Some(e) => Some((Tok::Html(s.subrange(i, e), inline_span(s, i, e)), e)),
            None => None,
        },
        !(s[i] == '`' || s[i] == '~' || s[i] == '!' || s[i] == '[' || s[i] == 'h' || s[i] == 'w' || s[i] == '*'
            || s[i] == '_' || s[i] == '<') ==> construct_at(s, i, gfm, refs) is None,
{
    reveal(construct_at);
}

/// One step of `scan` where a construct starts.
pub proof fn lemma_scan_construct(
    s: Seq<char>,
    i: int,
    buf: Seq<char>,
    gfm: bool,
    refs: Option<Map<Seq<char>, (Seq<char>, Option<Seq<char>>)>>,
    t: Tok,
    e: int,
)
    requires
        0 <= i < e <= s.len(),
        construct_at(s, i, gfm, refs) == Some((t, e)),
    ensures
        scan(s, i, buf, gfm, refs) == flush(s, buf, i - buf.len()) + seq![t] + scan(s, e, Seq::empty(), gfm, refs),
{
    reveal(scan);
    reveal(construct_at);
}

/// One step of `scan` where no construct starts.
pub proof fn lemma_scan_plain(
    s: Seq<char>,
    i: int,
    buf: Seq<char>,
    gfm: bool,
    refs: Option<Map<Seq<char>, (Seq<char>, Option<Seq<char>>)>>,
)
    requires
        0 <= i < s.len(),
        construct_at(s, i, gfm, refs) is None,
    ensures
        s[i] != '\n' ==> scan(s, i, buf, gfm, refs) == scan(s, i + 1, buf.push(s[i]), gfm, refs),
        s[i] == '\n' ==> scan(s, i, buf, gfm, refs) == flush(s, line_break_kept(buf), i - buf.len()) + seq![
            line_break_tok(buf, inline_span(s, i, i + 1)),
        ] + scan(s, i + 1, Seq::empty(), gfm, refs),
{
    reveal(scan);
    reveal(construct_at);
}

/// The pending text kept before a line break: without the two trailing
/// spaces or the backslash that make the break hard.
pub open spec fn line_break_kept(buf: Seq<char>) -> Seq<char> {
    if buf.len() >= 2 && buf[buf.len() - 1] == ' ' && buf[buf.len() - 2] == ' ' {
        buf.take(buf.len() - 2)
    } else if buf.len() >= 1 && buf[buf.len() - 1] == '\\' {
        buf.take(buf.len() - 1)
    } else {
        buf
    }
}

/// The line break after the pending text `buf`: hard after two spaces or
/// a backslash, soft otherwise.
pub open spec fn line_break_tok(buf: Seq<char>, sp: Span) -> Tok {
    if (buf.len() >= 2 && buf[buf.len() - 1] == ' ' && buf[buf.len() - 2] == ' ') || (buf.len() >= 1 && buf[
    buf.len() - 1] == '\\') {
        Tok::Hard(sp)
    } else {
        Tok::Soft(sp)
    }
}

/// `scan` at the end gives the pending text.
pub proof fn lemma_scan_end(
    s: Seq<char>,
    buf: Seq<char>,
    gfm: bool,
    refs: Option<Map<Seq<char>, (Seq<char>, Option<Seq<char>>)>>,
)
    ensures
        scan(s, s.len() as int, buf, gfm, refs) == flush(s, buf, s.len() - buf.len()),
{
    reveal(scan);
}

/// Emitting one node after the pending text keeps the tokens, followed by
/// what is left to scan, equal to the whole.
pub proof fn lemma_emit(prev: Seq<Tok>, mid: Seq<Inline>, x: Inline, f: Seq<Tok>, rest: Seq<Tok>, whole: Seq<Tok>)
    requires
        toks_of(mid) == prev + f,
        whole == f + seq![tok_of(x)] + rest,
    ensures
        toks_of(mid.push(x)) + rest == prev + whole,
{
    lemma_toks_push(mid, x);
    assert(toks_of(mid.push(x)) + rest =~= prev + whole);
}

/// Parse `chars[from..to]` as nested inline content (default options, no
/// reference definitions).
fn parse_nested(chars: &[char], from: usize, to: usize) -> (r: Vec<Inline>)
    requires
        from <= to <= chars@.len(),
        to - from < chars@.len(),
        utf8_len(chars@) <= usize::MAX,
    ensures
        toks_of(r@) == scan(chars@.subrange(from as int, to as int), 0, Seq::empty(), true, None),
    decreases chars@.len(), 0int,
{
    let inner = crate::parsers::atters::slice_vec(chars, from, to);
    proof {
        lemma_utf8_len_sub(chars@, from as int, to as int);
    }
    parse_chars(&inner, true, None)
}

/// `[text](url)`, or with reference definitions `[text][label]`,
/// `[label][]`, `[label]`, at `i`.
fn try_link(chars: &[char], i: usize, ctx: &InlineCtx, refs: Option<&LinkRefMap>) -> (r: Option<(Inline, usize)>)
    requires
        i < chars@.len(),
        chars@[i as int] == '[',
        ctx.wf(),
        ctx.built_from(chars@),
        utf8_len(chars@) <= usize::MAX,
    ensures
        r matches Some((_, e)) ==> i < e <= chars@.len(),
        match (r, link_at(chars@, i as int, refs_view(refs))) {
            (Some((node, e)), Some((t, e2))) => tok_of(node) == t && e == e2,
            (None, None) => true,
            _ => false,
        },
    decreases chars@.len(), 1int,
{
    reveal(scan);
    let n = chars.len();
    let (text, after) = match match_bracket(chars, i) {
        Some(x) => x,
        None => return None,
    };
    if let Some((url, title, after_url)) = match_paren(chars, after) {
        let children = parse_nested(chars, i + 1, after - 1);
        let pos = span_at(ctx, i, after_url, n);
        return Some((Inline::Link { text: children, url, title, autolink: false, pos }, after_url));
    }
    let ghost kids_v = scan(chars@.subrange(i + 1, after - 1), 0, Seq::empty(), true, None);
    let map = match refs {
        Some(m) => m,
        None => return None,
    };
    let (lab_from, lab_to, end) = if after < n && chars[after] == '[' {
        match match_bracket(chars, after) {
            Some((_lab, after2)) => {
                if after2 == after + 2 {
                    (i + 1, after - 1, after2)
                } else {
                    (after + 1, after2 - 1, after2)
                }
            },
            None => (i + 1, after - 1, after),
        }
    } else {
        (i + 1, after - 1, after)
    };
    assert((lab_from as int, lab_to as int, end as int) == label_range(chars@, i as int, after as int));
    let label = normalize_label_chars(chars, lab_from, lab_to);
    let label_chars = crate::text::string_chars(&label);
    match map.lookup(&label_chars) {
        Some((url, title)) => {
            let children = parse_nested(chars, i + 1, after - 1);
            let pos = span_at(ctx, i, end, n);
            Some((Inline::LinkReference { text: children, label, url, title, pos }, end))
        },
        None => None,
    }
}

/// `![alt](url)` at `i`.
fn try_image(chars: &[char], i: usize, ctx: &InlineCtx) -> (r: Option<(Inline, usize)>)
    requires
        i + 1 < chars@.len(),
        chars@[i + 1] == '[',
        ctx.wf(),
        ctx.built_from(chars@),
    ensures
        r matches Some((_, e)) ==> i < e <= chars@.len(),
        match (r, image_at(chars@, i as int)) {
            (Some((node, e)), Some((t, e2))) => tok_of(node) == t && e == e2,
            (None, None) => true,
            _ => false,
        },
{
    let n = chars.len();
    let (alt, after) = match match_bracket(chars, i + 1) {
        Some(x) => x,
        None => return None,
    };
    match match_paren(chars, after) {
        Some((url, title, after_url)) => {
            let pos = span_at(ctx, i, after_url, chars.len());
            Some((Inline::Image { alt, url, title, pos }, after_url))
        },
        None => None,
    }
}

/// Emphasis opened by the `marker` run at `i`: bold for a double marker
/// closed by a double marker, else italic.
fn try_emphasis(chars: &[char], i: usize, marker: char, ctx: &InlineCtx) -> (r: Option<(Inline, usize)>)
    requires
        i < chars@.len(),
        chars@[i as int] == marker,
        ctx.wf(),
        ctx.built_from(chars@),
        utf8_len(chars@) <= usize::MAX,
    ensures
        r matches Some((_, e)) ==> i < e <= chars@.len(),
        match (r, emph_at(chars@, i as int, marker)) {
            (Some((node, e)), Some((t, e2))) => tok_of(node) == t && e == e2,
            (None, None) => true,
            _ => false,
        },
    decreases chars@.len(), 1int,
{
    reveal(scan);
    let n = chars.len();
    let run = count_run(chars, i, marker);
    if run >= 2 {
        if let Some(end) = find_emphasis_close(chars, i + 2, marker, 2) {
            let children = parse_nested(chars, i + 2, end);
            let after = end + 2;
            let pos = span_at(ctx, i, after, n);
            return Some((Inline::Emphasis { level: EmphasisLevel::Bold, children, pos }, after));
        }
    }
    match find_emphasis_close(chars, i + 1, marker, 1) {
        Some(end) => {
            let children = parse_nested(chars, i + 1, end);
            let after = end + 1;
            let pos = span_at(ctx, i, after, n);
            Some((Inline::Emphasis { level: EmphasisLevel::Italic, children, pos }, after))
        },
        None => None,
    }
}

/// GFM `~~text~~` at `i`.
fn try_strikethrough(chars: &[char], i: usize, ctx: &InlineCtx) -> (r: Option<(Inline, usize)>)
    requires
        i + 1 < chars@.len(),
        ctx.wf(),
        ctx.built_from(chars@),
        utf8_len(chars@) <= usize::MAX,
    ensures
        r matches Some((_, e)) ==> i < e <= chars@.len(),
        match (r, strike_at(chars@, i as int)) {
            (Some((node, e)), Some((t, e2))) => tok_of(node) == t && e == e2,
            (None, None) => true,
            _ => false,
        },
    decreases chars@.len(), 1int,
{
    reveal(scan);
    let n = chars.len();
    match find_emphasis_close(chars, i + 2, '~', 2) {
        Some(end) => {
            let children = parse_nested(chars, i + 2, end);
            let after = end + 2;
            let pos = span_at(ctx, i, after, n);
            Some((Inline::Strikethrough { children, pos }, after))
        },
        None => None,
    }
}

/// The nodes emitted so far, followed by what is left to scan from `i`
/// with `buf` pending, make up `whole`.
#[verifier::opaque]
spec fn progress(
    tokens: Seq<Inline>,
    s: Seq<char>,
    i: int,
    buf: Seq<char>,
    gfm: bool,
    rv: Option<Map<Seq<char>, (Seq<char>, Option<Seq<char>>)>>,
    whole: Seq<Tok>,
) -> bool {
    toks_of(tokens) + scan(s, i, buf, gfm, rv) == whole
}

/// Emit the pending text and then the construct `node` found at `i`,
/// which ends at `e`.
fn emit_construct(
    tokens: &mut Vec<Inline>,
    text: &mut Vec<char>,
    text_start: usize,
    ctx: &InlineCtx,
    n: usize,
    node: Inline,
    Ghost(s): Ghost<Seq<char>>,
    Ghost(i): Ghost<int>,
    Ghost(e): Ghost<int>,
    Ghost(gfm): Ghost<bool>,
    Ghost(rv): Ghost<Option<Map<Seq<char>, (Seq<char>, Option<Seq<char>>)>>>,
    Ghost(whole): Ghost<Seq<Tok>>,
)
    requires
        ctx.wf(),
        ctx.built_from(s),
        n == s.len(),
        text_start + old(text)@.len() == i,
        0 <= i < e <= s.len(),
        construct_at(s, i, gfm, rv) == Some((tok_of(node), e)),
        progress(old(tokens)@, s, i, old(text)@, gfm, rv, whole),
    ensures
        final(text)@ == Seq::<char>::empty(),
        progress(final(tokens)@, s, e, Seq::empty(), gfm, rv, whole),
{
    let ghost prev = toks_of(tokens@);
    let ghost buf = text@;
    flush_text(tokens, text, text_start, ctx, n, Ghost(s));
    let ghost mid = tokens@;
    let ghost t = tok_of(node);
    tokens.push(node);
    proof {
        reveal(progress);
        lemma_scan_construct(s, i, buf, gfm, rv, t, e);
        lemma_emit(
            prev,
            mid,
            tokens@.last(),
            flush(s, buf, text_start as int),
            scan(s, e, Seq::empty(), gfm, rv),
            scan(s, i, buf, gfm, rv),
        );
        assert(tokens@ == mid.push(tokens@.last()));
        assert(text@ =~= Seq::<char>::empty());
    }
}

/// Emit the line break at `i`: hard after two spaces or a backslash (which
/// are dropped from the pending text), soft otherwise.
fn emit_line_break(
    tokens: &mut Vec<Inline>,
    text: &mut Vec<char>,
    text_start: usize,
    ctx: &InlineCtx,
    n: usize,
    i: usize,
    Ghost(s): Ghost<Seq<char>>,
    Ghost(gfm): Ghost<bool>,
    Ghost(rv): Ghost<Option<Map<Seq<char>, (Seq<char>, Option<Seq<char>>)>>>,
    Ghost(whole): Ghost<Seq<Tok>>,
)
    requires
        ctx.wf(),
        ctx.built_from(s),
        n == s.len(),
        i < n,
        s[i as int] == '\n',
        text_start + old(text)@.len() == i,
        construct_at(s, i as int, gfm, rv) is None,
        progress(old(tokens)@, s, i as int, old(text)@, gfm, rv, whole),
    ensures
        final(text)@ == Seq::<char>::empty(),
        progress(final(tokens)@, s, i + 1, Seq::empty(), gfm, rv, whole),
        final(tokens)@.len() > 0,
{
    let ghost prev = toks_of(tokens@);
    let ghost buf = text@;
    proof {
        reveal(progress);
        lemma_scan_plain(s, i as int, buf, gfm, rv);
    }
    let tl = text.len();
    let hard = if tl >= 2 && text[tl - 1] == ' ' && text[tl - 2] == ' ' {
        text.truncate(tl - 2);
        true
    } else if tl >= 1 && text[tl - 1] == '\\' {
        text.truncate(tl - 1);
        true
    } else {
        false
    };
    let ghost kept = text@;
    assert(kept == line_break_kept(buf));
    flush_text(tokens, text, text_start, ctx, n, Ghost(s));
    let ghost mid = tokens@;
    let pos = span_at(ctx, i, i + 1, n);
    if hard {
        tokens.push(Inline::HardBreak { pos });
    } else {
        tokens.push(Inline::SoftBreak { pos });
    }
    proof {
        assert(tok_of(tokens@.last()) == line_break_tok(buf, inline_span(s, i as int, i + 1)));
        lemma_emit(
            prev,
            mid,
            tokens@.last(),
            flush(s, kept, text_start as int),
            scan(s, i + 1, Seq::empty(), gfm, rv),
            scan(s, i as int, buf, gfm, rv),
        );
        assert(tokens@ == mid.push(tokens@.last()));
        assert(text@ =~= Seq::<char>::empty());
    }
}

/// Parse inline Markdown held in `chars`.
fn parse_chars(chars: &[char], gfm: bool, refs: Option<&LinkRefMap>) -> (r: Vec<Inline>)
    requires
        utf8_len(chars@) <= usize::MAX,
    ensures
        toks_of(r@) == scan(chars@, 0, Seq::empty(), gfm, refs_view(refs)),
        plain_text(chars@, gfm) && chars@.len() == 0 ==> r@.len() == 0,
        plain_text(chars@, gfm) && chars@.len() > 0 ==> r@.len() == 1 && text_node(r@[0], chars@),
    decreases chars@.len(), 2int,
{
    let n = chars.len();
    let ctx = InlineCtx::new(chars);
    let mut tokens: Vec<Inline> = Vec::new();
    let mut i: usize = 0;
    let mut text: Vec<char> = Vec::new();
    let mut text_start: usize = 0;
    let ghost plain = plain_text(chars@, gfm);
    let ghost rv = refs_view(refs);
    let ghost whole = scan(chars@, 0, Seq::empty(), gfm, rv);
    proof {
        reveal(progress);
        assert(toks_of(tokens@) + scan(chars@, 0, text@, gfm, rv) =~= whole);
    }
    while i < n
        invariant
            n == chars@.len(),
            i <= n,
            ctx.wf(),
            utf8_len(chars@) <= usize::MAX,
            plain == plain_text(chars@, gfm),
            rv == refs_view(refs),
            whole == scan(chars@, 0, Seq::empty(), gfm, rv),
            text_start + text@.len() == i,
            ctx.built_from(chars@),
            plain ==> tokens@.len() == 0 && text_start == 0 && text@ == chars@.take(i as int),
            progress(tokens@, chars@, i as int, text@, gfm, rv, whole),
        decreases n - i,
    {
        let c = chars[i];
        proof {
            lemma_construct_at(chars@, i as int, gfm, rv);
        }
        if c == '`' {
            let ticks = count_run(chars, i, '`');
            proof {
                lemma_run_len_bound(chars@, i as int, '`');
            }
            if let Some((code, end)) = match_inline_code(chars, i, ticks) {
                let pos = span_at(&ctx, i, end, n);
                let e = if end < n { end } else { n };
                emit_construct(&mut tokens, &mut text, text_start, &ctx, n, Inline::Code { code, pos }, Ghost(chars@), Ghost(i as int), Ghost(e as int), Ghost(gfm), Ghost(rv), Ghost(whole));
                i = e;
                text_start = i;
                continue;
            }
        }
        if gfm && c == '~' && i + 1 < n && chars[i + 1] == '~' {
            if let Some((node, end)) = try_strikethrough(chars, i, &ctx) {
                emit_construct(&mut tokens, &mut text, text_start, &ctx, n, node, Ghost(chars@), Ghost(i as int), Ghost(end as int), Ghost(gfm), Ghost(rv), Ghost(whole));
                i = end;
                text_start = i;
                continue;
            }
        }
        if c == '!' && i + 1 < n && chars[i + 1] == '[' {
            if let Some((node, end)) = try_image(chars, i, &ctx) {
                emit_construct(&mut tokens, &mut text, text_start, &ctx, n, node, Ghost(chars@), Ghost(i as int), Ghost(end as int), Ghost(gfm), Ghost(rv), Ghost(whole));
                i = end;
                text_start = i;
                continue;
            }
        }
        if c == '[' {
            if let Some((node, end)) = try_link(chars, i, &ctx, refs) {
                emit_construct(&mut tokens, &mut text, text_start, &ctx, n, node, Ghost(chars@), Ghost(i as int), Ghost(end as int), Ghost(gfm), Ghost(rv), Ghost(whole));
                i = end;
                text_start = i;
                continue;
            }
        }
        if gfm && (c == 'h' || c == 'w') {
            if let Some((url, end)) = match_autolink(chars, i) {
                let url2 = string_of(chars, i, end);
                let pos = span_at(&ctx, i, end, n);
                let mut kids: Vec<Inline> = Vec::new();
                kids.push(Inline::Text { value: url2, pos });
                proof {
                    lemma_toks_push(Seq::empty(), kids@[0]);
                    assert(kids@ == Seq::<Inline>::empty().push(kids@[0]));
                }
                let node = Inline::Link { text: kids, url, title: None, autolink: true, pos };
                emit_construct(&mut tokens, &mut text, text_start, &ctx, n, node, Ghost(chars@), Ghost(i as int), Ghost(end as int), Ghost(gfm), Ghost(rv), Ghost(whole));
                i = end;
                text_start = i;
                continue;
            }
        }
        if c == '*' || c == '_' {
            if let Some((node, end)) = try_emphasis(chars, i, c, &ctx) {
                emit_construct(&mut tokens, &mut text, text_start, &ctx, n, node, Ghost(chars@), Ghost(i as int), Ghost(end as int), Ghost(gfm), Ghost(rv), Ghost(whole));
                i = end;
                text_start = i;
                continue;
            }
        }
        if c == '\n' {
            emit_line_break(&mut tokens, &mut text, text_start, &ctx, n, i, Ghost(chars@), Ghost(gfm), Ghost(rv), Ghost(whole));
            i += 1;
            text_start = i;
            continue;
        }
        if c == '<' {
            if let Some(end) = match_inline_html(chars, i) {
                let html = string_of(chars, i, end);
                let pos = span_at(&ctx, i, end, n);
                emit_construct(&mut tokens, &mut text, text_start, &ctx, n, Inline::HtmlInline { html, pos }, Ghost(chars@), Ghost(i as int), Ghost(end as int), Ghost(gfm), Ghost(rv), Ghost(whole));
                i = end;
                text_start = i;
                continue;
            }
        }
        proof {
            reveal(progress);
            lemma_scan_plain(chars@, i as int, text@, gfm, rv);
            if plain {
                assert(!special_char(chars@[i as int]));
                if gfm {
                    assert(autolink_spec(chars@, i as int) is None);
                }
            }
        }
        text.push(c);
        i += 1;
        assert(plain ==> text@ =~= chars@.take(i as int));
    }
    let ghost t0 = text@;
    let ghost prev = toks_of(tokens@);
    flush_text(&mut tokens, &mut text, text_start, &ctx, n, Ghost(chars@));
    proof {
        if plain {
            assert(t0 =~= chars@);
        }
        reveal(progress);
        lemma_scan_end(chars@, t0, gfm, rv);
        assert(toks_of(tokens@) =~= whole);
    }
    tokens
}

/// The inline options: GFM on unless the options say otherwise.
fn gfm_of(opts: Option<&AstOptions>) -> (g: bool)
    ensures
        g == match opts {
            Some(o) => o.gfm,
            None => true,
        },
{
    match opts {
        Some(o) => o.gfm,
        None => true,
    }
}

/// Parse inline markdown into a list of [`Inline`] nodes.
///
/// `None` options mean the defaults (GFM on).
pub fn parse_inline(input: &str, opts: Option<&AstOptions>) -> (r: Vec<Inline>)
    ensures
        toks_of(r@) == scan(input@, 0, Seq::empty(), gfm_spec(opts), None),
        plain_text(input@, gfm_spec(opts)) && input@.len() == 0 ==> r@.len() == 0,
        plain_text(input@, gfm_spec(opts)) && input@.len() > 0 ==> r@.len() == 1 && text_node(r@[0], input@),
{
    parse_inline_with_refs(input, opts, None)
}

/// Parse inline markdown with the given options (controls GFM features).
pub fn parse_inline_with(input: &str, opts: &AstOptions) -> (r: Vec<Inline>)
    ensures
        toks_of(r@) == scan(input@, 0, Seq::empty(), opts.gfm, None),
        plain_text(input@, opts.gfm) && input@.len() == 0 ==> r@.len() == 0,
        plain_text(input@, opts.gfm) && input@.len() > 0 ==> r@.len() == 1 && text_node(r@[0], input@),
{
    parse_inline_with_refs(input, Some(opts), None)
}

/// Whether GFM is on for the given options.
pub open spec fn gfm_spec(opts: Option<&AstOptions>) -> bool {
    match opts {
        Some(o) => o.gfm,
        None => true,
    }
}

/// Parse inline markdown, resolving reference-style links against `refs`.
pub fn parse_inline_with_refs(input: &str, opts: Option<&AstOptions>, refs: Option<&LinkRefMap>) -> (r: Vec<Inline>)
    ensures
        toks_of(r@) == scan(input@, 0, Seq::empty(), gfm_spec(opts), refs_view(refs)),
        plain_text(input@, gfm_spec(opts)) && input@.len() == 0 ==> r@.len() == 0,
        plain_text(input@, gfm_spec(opts)) && input@.len() > 0 ==> r@.len() == 1 && text_node(r@[0], input@),
{
    let chars = str_to_chars(input);
    crate::text::str_bytes_bound(input);
    let g = gfm_of(opts);
    parse_chars(&chars, g, refs)
}

/// `parse_inline_with_refs` on characters.
pub fn parse_inline_chars(chars: &[char], opts: Option<&AstOptions>, refs: Option<&LinkRefMap>) -> (r: Vec<Inline>)
    requires
        utf8_len(chars@) <= usize::MAX,
    ensures
        toks_of(r@) == scan(chars@, 0, Seq::empty(), gfm_spec(opts), refs_view(refs)),
        plain_text(chars@, gfm_spec(opts)) && chars@.len() == 0 ==> r@.len() == 0,
        plain_text(chars@, gfm_spec(opts)) && chars@.len() > 0 ==> r@.len() == 1 && text_node(r@[0], chars@),
{
    let g = gfm_of(opts);
    parse_chars(chars, g, refs)
}
/// What a lookup gives back of an insertion: the value just inserted for
/// that label, and for every other label what it gave before.
pub proof fn law_lookup_after_insert(
    m: Map<Seq<char>, (Seq<char>, Option<Seq<char>>)>,
    label: Seq<char>,
    value: (Seq<char>, Option<Seq<char>>),
    other: Seq<char>,
)
    requires
        other != label,
    ensures
        m.insert(label, value).contains_key(label),
        m.insert(label, value)[label] == value,
        m.insert(label, value).contains_key(other) == m.contains_key(other),
        m.contains_key(other) ==> m.insert(label, value)[other] == m[other],
{
}


/// A link destination `url "title"` or `url 'title'` splits at the quotes:
/// the URL is the text before the opening quote, the title the text
/// between the quotes (trimmed), whichever of the two quote characters is
/// used.
pub proof fn law_link_title_quotes(url: Seq<char>, title: Seq<char>, q: char)
    requires
        q == '\'' || q == '"',
        url.len() > 0,
        !is_ws(url[0]),
        !is_ws(url[url.len() - 1]),
        forall|k: int| 0 <= k < title.len() ==> #[trigger] title[k] != q,
    ensures
        link_dest_spec(url + seq![' ', q] + title + seq![q]) == (url, Some(trim(title))),
{
    let raw = url + seq![' ', q] + title + seq![q];
    let n = raw.len() as int;
    assert(raw[0] == url[0]);
    assert(raw[n - 1] == q);
    crate::text::lemma_lead_ws_unique(raw, 0);
    crate::text::lemma_trail_ws_unique(raw, n);
    assert(raw.skip(0) =~= raw);
    assert(raw.take(n) =~= raw);
    let t = trim(raw);
    assert(t == raw);
    let d = t.drop_last();
    let m = url.len() as int;
    assert(d =~= url + seq![' ', q] + title);
    lemma_rindex(d, q);
    let r = rindex(d, q);
    assert(d[m + 1] == q);
    if r < m + 1 {
        assert(d[m + 1] != q);
    }
    if r > m + 1 {
        assert(d[r] == title[r - m - 2]);
    }
    assert(r == m + 1);
    let x = t.take(r);
    assert(x =~= url + seq![' ']);
    assert(x[0] == url[0]);
    crate::text::lemma_lead_ws_unique(x, 0);
    assert(x.skip(0) =~= x);
    assert(x[m - 1] == url[m - 1]);
    crate::text::lemma_trail_ws_unique(x, m);
    assert(x.take(m) =~= url);
    assert(t.subrange(r + 1, t.len() - 1) =~= title);
    if q == '"' {
        assert(rindex(d, '"') == r);
    } else {
        assert(t.last() != '"');
        assert(rindex(d, '\'') == r);
    }
}

} // verus!
