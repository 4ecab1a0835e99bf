//! Line classification and the small line-level parsers of the block parser:
//! headings, fences, thematic breaks, list markers, task markers, HTML block
//! starts, Kramdown attribute lines, link reference definitions and their
//! labels, URLs and titles.

use crate::parsers::atters::{lemma_run_ends, word_end};
use crate::text::{
    count_non_ws, count_run, find_char, index_of, index_of_from, is_alpha, is_ascii_alphabetic,
    is_ascii_digit, is_digit, is_whitespace, is_ws, lead_ws, lemma_index_of_from,
    lemma_lead_ws_bound, lowercase_of, lower_mapping, ascii_lower, run_len, skip_ws, starts_with, str_to_chars, string_of,
    trim, trim_bounds, trim_start, utf8_len, utf8_len_of,
};
use crate::tokens::token::TaskState;
use vstd::prelude::*;

verus! {

/// Length of the run of ASCII digits starting at index `i`.
pub open spec fn digit_run(s: Seq<char>, i: int) -> nat
    decreases s.len() - i,
{
    if 0 <= i < s.len() && is_digit(s[i]) {
        1 + digit_run(s, i + 1)
    } else {
        0
    }
}

/// The level of an ATX heading line (`#` … `######` then a space or the
/// end of the line), or 0.
pub open spec fn heading_level(s: Seq<char>) -> nat {
    let t = trim_start(s);
    let h = run_len(t, 0, '#');
    if 1 <= h <= 6 && (h == t.len() || t[h as int] == ' ') {
        h
    } else {
        0
    }
}

/// The line opens (or closes) a fenced code block: three or more `` ` `` or `~`.
pub open spec fn fence_line(s: Seq<char>) -> bool {
    let t = trim_start(s);
    t.len() > 0 && (t[0] == '`' || t[0] == '~') && run_len(t, 0, t[0]) >= 3
}

/// The trimmed line starts with `{` and ends with `}`.
pub open spec fn kramdown_attr_line(s: Seq<char>) -> bool {
    let t = trim(s);
    t.len() > 0 && t[0] == '{' && t.last() == '}'
}

/// Three or more of one of `-`, `*`, `_`, and nothing else but whitespace.
pub open spec fn thematic_break_line(s: Seq<char>) -> bool {
    (only_ws_or(s, '-') || only_ws_or(s, '*') || only_ws_or(s, '_')) && count_non_ws(s) >= 3
}

/// Every character of `s` is whitespace or `c`.
pub open spec fn only_ws_or(s: Seq<char>, c: char) -> bool {
    forall|k: int| 0 <= k < s.len() ==> is_ws(#[trigger] s[k]) || s[k] == c
}

/// The trimmed line starts with `<` followed by `/`, `!` or an ASCII letter.
pub open spec fn html_block_start(s: Seq<char>) -> bool {
    let t = trim_start(s);
    t.len() > 1 && t[0] == '<' && (t[1] == '/' || t[1] == '!' || is_alpha(t[1]))
}

/// Index (in the trimmed line) of the `]` closing the leading `[`.
pub open spec fn label_close(t: Seq<char>) -> int {
    1 + index_of(t.skip(1), ']')
}

/// The line looks like `[label]:` (after leading whitespace).
pub open spec fn link_ref_def_line(s: Seq<char>) -> bool {
    let t = trim_start(s);
    let b = label_close(t);
    t.len() > 0 && t[0] == '[' && b < t.len() && starts_with(trim_start(t.skip(b + 1)), seq![':'])
}

/// The line starts with a list marker: `-`, `*`, `+` and a space, or 1–9
/// digits and `.` or `)` followed by a space.
pub open spec fn list_marker_line(s: Seq<char>) -> bool {
    let t = trim_start(s);
    let d = digit_run(t, 0);
    let rest = t.skip(d as int);
    ||| starts_with(t, seq!['-', ' '])
    ||| starts_with(t, seq!['*', ' '])
    ||| starts_with(t, seq!['+', ' '])
    ||| (0 < d < 10 && (starts_with(rest, seq!['.', ' ']) || starts_with(rest, seq![')', ' '])))
}

/// Collapse whitespace runs of `s` to one space and lowercase every other
/// character (ASCII letters to their lowercase letter, other characters
/// to their Unicode lowercase mapping, which may be several characters).
pub open spec fn collapse_lower(s: Seq<char>) -> Seq<char>
    decreases s.len(),
{
    if s.len() == 0 {
        Seq::empty()
    } else {
        let p = collapse_lower(s.drop_last());
        let c = s.last();
        if is_ws(c) {
            if s.len() >= 2 && is_ws(s[s.len() - 2]) {
                p
            } else {
                p.push(' ')
            }
        } else {
            p + lower_mapping(c)
        }
    }
}

/// A link label normalised per CommonMark: trimmed, internal whitespace runs
/// collapsed to one space, lowercased.
pub open spec fn normalize_label_spec(s: Seq<char>) -> Seq<char> {
    collapse_lower(trim(s))
}

/// The URL of a link reference definition and the text after it: `<url>`
/// when the text starts with `<` and has a `>`, else the text up to the
/// first whitespace.
pub open spec fn link_url_spec(rest: Seq<char>) -> (Seq<char>, Seq<char>) {
    let r = trim_start(rest);
    let k = index_of(r, '>');
    if r.len() > 0 && r[0] == '<' && k < r.len() {
        (r.subrange(1, k), r.skip(k + 1))
    } else {
        let e = word_end(r, 0);
        (r.take(e), r.skip(e))
    }
}

/// Index of the closing delimiter of a title, skipping `\x` escapes.
pub open spec fn title_scan(r: Seq<char>, i: int, close: char) -> Option<int>
    decreases r.len() - i,
{
    if i < 1 || i >= r.len() {
        None
    } else if r[i] == close {
        Some(i)
    } else if r[i] == '\\' && i + 1 < r.len() {
        title_scan(r, i + 2, close)
    } else {
        title_scan(r, i + 1, close)
    }
}

/// An optional link title `"..."`, `'...'` or `(...)` and the number of
/// characters it spans, or `(None, 0)`.
pub open spec fn link_title_spec(rest: Seq<char>) -> (Option<Seq<char>>, int) {
    let r = trim_start(rest);
    if r.len() == 0 || !(r[0] == '"' || r[0] == '\'' || r[0] == '(') {
        (None, 0)
    } else {
        let close = if r[0] == '(' { ')' } else { r[0] };
        match title_scan(r, 1, close) {
            Some(j) => (Some(r.subrange(1, j)), j + 1),
            None => (None, 0),
        }
    }
}

/// Label, URL and title of a link reference definition line.
pub open spec fn ref_def_parts(line: Seq<char>) -> Option<(Seq<char>, Seq<char>, Option<Seq<char>>)> {
    let t = trim_start(line);
    let b = label_close(t);
    if !link_ref_def_line(line) {
        None
    } else if trim(t.subrange(1, b)).len() == 0 {
        None
    } else {
        let ab = trim_start(t.skip(b + 1));
        let rest = trim_start(ab.skip(1));
        let (url, after) = link_url_spec(rest);
        Some((normalize_label_spec(t.subrange(1, b)), url, link_title_spec(trim(after)).0))
    }
}

/// Comment text of a raw HTML comment: trimmed, `<!--` and `-->` removed,
/// then trimmed again.
pub open spec fn comment_content(raw: Seq<char>) -> Seq<char> {
    let t = trim(raw);
    if starts_with(t, seq!['<', '!', '-', '-']) {
        let inner = t.skip(4);
        if inner.len() >= 3 && inner.skip(inner.len() - 3) == seq!['-', '-', '>'] {
            trim(inner.take(inner.len() - 3))
        } else {
            trim(inner)
        }
    } else {
        t
    }
}

/// Where the marker of a list line ends, in the trimmed line: one character
/// for `-`, `*`, `+`; the digits and one more character otherwise.
pub open spec fn task_marker_end(t: Seq<char>) -> int {
    if t.len() > 0 && (t[0] == '-' || t[0] == '*' || t[0] == '+') {
        1
    } else {
        digit_run(t, 0) + 1int
    }
}

/// The task marker of a list line cuts the line at a character: the marker
/// is `-`, `*`, `+`, or there are no digits, or the digits are followed by
/// an ASCII character.
pub open spec fn task_marker_defined(line: Seq<char>) -> bool {
    let t = trim_start(line);
    let d = digit_run(t, 0);
    ||| t.len() > 0 && (t[0] == '-' || t[0] == '*' || t[0] == '+')
    ||| d == 0
    ||| d < t.len() && (t[d as int] as u32) < 0x80
}

/// The GFM task marker `[ ]` / `[x]` / `[X]` after the list marker of a line,
/// with the byte offset (in the trimmed line) just after it; none where
/// there is no list marker, or where the digits of an ordered marker end the
/// line or are followed by a non-ASCII character.
pub open spec fn task_marker_spec(line: Seq<char>) -> Option<(TaskState, int)> {
    let t = trim_start(line);
    let m = task_marker_end(t);
    let after = t.skip(m);
    let at = trim_start(after);
    let off = m + utf8_len(after.take(lead_ws(after) as int)) + 3;
    if !(t.len() > 0 && (t[0] == '-' || t[0] == '*' || t[0] == '+')) && digit_run(t, 0) == 0 {
        None
    } else if !task_marker_defined(line) {
        None
    } else if starts_with(at, seq!['[', ' ', ']']) {
        Some((TaskState::Unchecked, off))
    } else if starts_with(at, seq!['[', 'x', ']']) || starts_with(at, seq!['[', 'X', ']']) {
        Some((TaskState::Checked, off))
    } else {
        None
    }
}

/// `s[from..to]` starts with the characters of `p` (given as a sequence).
pub fn starts_with_chars(s: &[char], from: usize, to: usize, p: &[char]) -> (b: bool)
    requires
        from <= to <= s@.len(),
    ensures
        b == starts_with(s@.subrange(from as int, to as int), p@),
{
    if p.len() > to - from {
        return false;
    }
    let mut k: usize = 0;
    while k < p.len()
        invariant
            k <= p@.len() <= to - from,
            from <= to <= s@.len(),
            forall|m: int| 0 <= m < k ==> s@[from + m] == p@[m],
        decreases p@.len() - k,
    {
        if s[from + k] != p[k] {
            proof {
                let t = s@.subrange(from as int, to as int);
                assert(t[k as int] != p@[k as int]);
            }
            return false;
        }
        k += 1;
    }
    proof {
        let t = s@.subrange(from as int, to as int);
        assert forall|m: int| 0 <= m < p@.len() implies #[trigger] t[m] == p@[m] by {
            assert(t[m] == s@[from + m]);
        }
    }
    true
}

/// Length of the run of ASCII digits starting at `from`.
pub fn count_digits(s: &[char], from: usize) -> (n: usize)
    requires
        from <= s@.len(),
    ensures
        n == digit_run(s@, from as int),
        from + n <= s@.len(),
{
    let mut k = from;
    while k < s.len() && is_ascii_digit(s[k])
        invariant
            from <= k <= s@.len(),
            digit_run(s@, from as int) == (k - from) + digit_run(s@, k as int),
        decreases s@.len() - k,
    {
        k += 1;
    }
    k - from
}

pub proof fn lemma_digit_run_shift(s: Seq<char>, a: int, i: int)
    requires
        0 <= a <= s.len(),
        0 <= i,
    ensures
        digit_run(s.skip(a), i) == digit_run(s, a + i),
    decreases s.len() - a - i,
{
    if a + i < s.len() && is_digit(s[a + i]) {
        lemma_digit_run_shift(s, a, i + 1);
    }
}

pub proof fn lemma_run_len_shift(s: Seq<char>, a: int, i: int, c: char)
    requires
        0 <= a <= s.len(),
        0 <= i,
    ensures
        run_len(s.skip(a), i, c) == run_len(s, a + i, c),
    decreases s.len() - a - i,
{
    if a + i < s.len() && s[a + i] == c {
        lemma_run_len_shift(s, a, i + 1, c);
    }
}

/// Whether the line is an ATX heading line; returns its level (0 if not).
pub fn heading_level_of(s: &[char]) -> (h: usize)
    ensures
        h == heading_level(s@),
{
    let a = skip_ws(s, 0, s.len());
    assert(s@.subrange(0, s@.len() as int) =~= s@);
    let ghost t = trim_start(s@);
    assert(t =~= s@.skip(a as int));
    let n = count_run(s, a, '#');
    proof {
        lemma_run_len_shift(s@, a as int, 0, '#');
    }
    if 1 <= n && n <= 6 && (a + n == s.len() || s[a + n] == ' ') {
        n
    } else {
        0
    }
}

/// `is_heading`.
pub fn is_heading(s: &[char]) -> (b: bool)
    ensures
        b == (heading_level(s@) > 0),
{
    heading_level_of(s) > 0
}

/// `is_fence`.
pub fn is_fence(s: &[char]) -> (b: bool)
    ensures
        b == fence_line(s@),
{
    let a = skip_ws(s, 0, s.len());
    assert(s@.subrange(0, s@.len() as int) =~= s@);
    assert(trim_start(s@) =~= s@.skip(a as int));
    if a >= s.len() {
        return false;
    }
    let c = s[a];
    if c != '`' && c != '~' {
        return false;
    }
    let n = count_run(s, a, c);
    proof {
        lemma_run_len_shift(s@, a as int, 0, c);
    }
    n >= 3
}

/// `is_kramdown_attr_line`.
pub fn is_kramdown_attr_line(s: &[char]) -> (b: bool)
    ensures
        b == kramdown_attr_line(s@),
{
    let (a, b) = trim_bounds(s, 0, s.len());
    assert(s@.subrange(0, s@.len() as int) =~= s@);
    a < b && s[a] == '{' && s[b - 1] == '}'
}

/// `is_html_block_start`.
pub fn is_html_block_start(s: &[char]) -> (b: bool)
    ensures
        b == html_block_start(s@),
{
    let a = skip_ws(s, 0, s.len());
    assert(s@.subrange(0, s@.len() as int) =~= s@);
    assert(trim_start(s@) =~= s@.skip(a as int));
    a < s.len() && a + 1 < s.len() && s[a] == '<' && (s[a + 1] == '/' || s[a + 1] == '!'
        || is_ascii_alphabetic(s[a + 1]))
}

/// `is_thematic_break` on characters.
pub fn thematic_break_chars(s: &[char]) -> (b: bool)
    ensures
        b == thematic_break_line(s@),
{
    let mut first: Option<char> = None;
    let mut count: usize = 0;
    let mut uniform = true;
    let mut k: usize = 0;
    while k < s.len()
        invariant
            k <= s@.len(),
            count == count_non_ws(s@.take(k as int)),
            count <= k,
            first is None ==> uniform,
            first is None ==> count == 0 && forall|m: int| 0 <= m < k ==> is_ws(#[trigger] s@[m]),
            first is Some ==> count > 0 && (uniform <==> forall|m: int|
                0 <= m < k ==> is_ws(#[trigger] s@[m]) || s@[m] == first.unwrap()),
            first is Some ==> exists|m: int| 0 <= m < k && s@[m] == first.unwrap() && !is_ws(s@[m]),
        decreases s@.len() - k,
    {
        let c = s[k];
        proof {
            assert(s@.take(k + 1).drop_last() =~= s@.take(k as int));
            assert(s@.take(k + 1).last() == c);
        }
        if !is_whitespace(c) {
            match first {
                None => {
                    first = Some(c);
                },
                Some(f) => {
                    if c != f {
                        uniform = false;
                    }
                },
            }
            count = count + 1;
        }
        k += 1;
    }
    assert(s@.take(s@.len() as int) =~= s@);
    match first {
        None => {
            proof {
                if thematic_break_line(s@) {
                    assert(count_non_ws(s@) == 0);
                }
            }
            false
        },
        Some(f) => {
            let ok = (f == '-' || f == '*' || f == '_') && uniform && count >= 3;
            proof {
                if thematic_break_line(s@) && !ok {
                    let c = if only_ws_or(s@, '-') {
                        '-'
                    } else if only_ws_or(s@, '*') {
                        '*'
                    } else {
                        '_'
                    };
                    assert(only_ws_or(s@, c));
                    let m = choose|m: int| 0 <= m < s@.len() && s@[m] == f && !is_ws(s@[m]);
                    assert(is_ws(s@[m]) || s@[m] == c);
                    assert(only_ws_or(s@, f));
                }
                if ok {
                    assert(only_ws_or(s@, f));
                }
            }
            ok
        },
    }
}

/// Returns `true` if the line is a thematic break (`---`, `***`, or `___`
/// with at least three identical characters, optionally spaced).
pub fn is_thematic_break(line: &str) -> (b: bool)
    ensures
        b == thematic_break_line(line@),
{
    let s = str_to_chars(line);
    thematic_break_chars(&s)
}

/// `is_link_ref_def` on characters.
pub fn link_ref_def_chars(s: &[char]) -> (b: bool)
    ensures
        b == link_ref_def_line(s@),
{
    let a = skip_ws(s, 0, s.len());
    assert(s@.subrange(0, s@.len() as int) =~= s@);
    let ghost t = trim_start(s@);
    assert(t =~= s@.skip(a as int));
    if a >= s.len() || s[a] != '[' {
        return false;
    }
    let k = find_char(s, a + 1, s.len(), ']');
    assert(t.skip(1) =~= s@.subrange(a + 1, s@.len() as int));
    if k >= s.len() {
        return false;
    }
    assert(label_close(t) == k - a);
    let c = skip_ws(s, k + 1, s.len());
    proof {
        assert(t.skip(label_close(t) + 1) =~= s@.subrange(k + 1, s@.len() as int));
        assert(trim_start(t.skip(label_close(t) + 1)) =~= s@.subrange(c as int, s@.len() as int));
    }
    let r = c < s.len() && s[c] == ':';
    proof {
        let u = s@.subrange(c as int, s@.len() as int);
        assert(trim_start(t.skip(label_close(t) + 1)) == u);
        if c < s.len() {
            assert(u[0] == s@[c as int]);
            assert(starts_with(u, seq![':']) == (s@[c as int] == ':'));
        } else {
            assert(u.len() == 0);
            assert(!starts_with(u, seq![':']));
        }
        assert(t[0] == s@[a as int]);
        assert(label_close(t) < t.len());
    }
    r
}

/// Returns `true` if the line looks like a link reference definition:
/// `[label]: url ...`.
///
/// This is a lightweight check of the `[...]` `:` prefix only.
pub fn is_link_ref_def(line: &str) -> (b: bool)
    ensures
        b == link_ref_def_line(line@),
{
    let s = str_to_chars(line);
    link_ref_def_chars(&s)
}

/// `is_list_marker` on characters.
pub fn list_marker_chars(s: &[char]) -> (b: bool)
    ensures
        b == list_marker_line(s@),
{
    let n = s.len();
    let a = skip_ws(s, 0, n);
    assert(s@.subrange(0, n as int) =~= s@);
    let ghost t = trim_start(s@);
    assert(t =~= s@.subrange(a as int, n as int));
    if starts_with_chars(s, a, n, &['-', ' ']) || starts_with_chars(s, a, n, &['*', ' '])
        || starts_with_chars(s, a, n, &['+', ' ']) {
        return true;
    }
    let d = count_digits(s, a);
    proof {
        lemma_digit_run_shift(s@, a as int, 0);
        assert(t.skip(d as int) =~= s@.subrange(a + d, n as int));
    }
    if d > 0 && d < 10 {
        let r = a + d;
        if starts_with_chars(s, r, n, &['.', ' ']) || starts_with_chars(s, r, n, &[')', ' ']) {
            return true;
        }
    }
    false
}

/// Returns `true` if the line is a list marker: `-`, `*`, `+` followed by
/// a space, or 1–9 digits followed by `.` or `)` and a space.
pub fn is_list_marker(line: &str) -> (b: bool)
    ensures
        b == list_marker_line(line@),
{
    let s = str_to_chars(line);
    list_marker_chars(&s)
}

/// Normalise a link label held in `s[from..to]`.
pub fn normalize_label_chars(s: &[char], from: usize, to: usize) -> (r: String)
    requires
        from <= to <= s@.len(),
    ensures
        r@ == normalize_label_spec(s@.subrange(from as int, to as int)),
{
    let (a, b) = trim_bounds(s, from, to);
    let ghost t = s@.subrange(a as int, b as int);
    let mut out = String::new();
    let mut prev_ws = false;
    let mut k = a;
    while k < b
        invariant
            a <= k <= b <= s@.len(),
            t == s@.subrange(a as int, b as int),
            out@ == collapse_lower(t.take(k - a)),
            prev_ws == (k > a && is_ws(s@[k - 1])),
        decreases b - k,
    {
        let c = s[k];
        proof {
            let p = t.take(k + 1 - a);
            assert(p.drop_last() =~= t.take(k - a));
            assert(p.last() == c);
            if k > a {
                assert(p[p.len() - 2] == s@[k - 1]);
            }
        }
        if is_whitespace(c) {
            if !prev_ws {
                crate::text::push_char(&mut out, ' ');
                prev_ws = true;
            }
        } else {
            let lc = lowercase_of(c);
            assert(lc@ == lower_mapping(c));
            crate::text::push_str(&mut out, lc.as_str());
            prev_ws = false;
        }
        k += 1;
    }
    assert(t.take(b - a) =~= t);
    out
}

/// Normalise a link label per CommonMark: trim, collapse internal whitespace
/// to single spaces, lowercase.
pub fn normalize_label(label: &str) -> (r: String)
    ensures
        r@ == normalize_label_spec(label@),
{
    let s = str_to_chars(label);
    assert(s@.subrange(0, s@.len() as int) =~= s@);
    normalize_label_chars(&s, 0, s.len())
}

/// End of the run of non-whitespace characters starting at `from`.
fn scan_word_at(s: &[char], from: usize, to: usize) -> (j: usize)
    requires
        from <= to <= s@.len(),
    ensures
        from <= j <= to,
        j - from == word_end(s@.subrange(from as int, to as int), 0),
{
    let mut j = from;
    let ghost t = s@.subrange(from as int, to as int);
    while j < to && !is_whitespace(s[j])
        invariant
            from <= j <= to <= s@.len(),
            t == s@.subrange(from as int, to as int),
            word_end(t, 0) == word_end(t, j - from),
        decreases to - j,
    {
        assert(t[j - from] == s@[j as int]);
        j += 1;
    }
    proof {
        if j < to {
            assert(t[j - from] == s@[j as int]);
        }
    }
    j
}

/// Bounds within `s` of the URL and of the text after it, for the URL part
/// of a link reference definition held in `s[from..to]`.
pub fn link_url_bounds(s: &[char], from: usize, to: usize) -> (r: (usize, usize, usize))
    requires
        from <= to <= s@.len(),
    ensures
        from <= r.0 <= r.1 <= r.2 <= to,
        link_url_spec(s@.subrange(from as int, to as int)) == (
            s@.subrange(r.0 as int, r.1 as int),
            s@.subrange(r.2 as int, to as int),
        ),
{
    let a = skip_ws(s, from, to);
    let ghost r = trim_start(s@.subrange(from as int, to as int));
    assert(r =~= s@.subrange(a as int, to as int));
    if a < to && s[a] == '<' {
        let k = find_char(s, a, to, '>');
        if k < to {
            assert(r.subrange(1, k - a) =~= s@.subrange(a + 1, k as int));
            assert(r.skip(k - a + 1) =~= s@.subrange(k + 1, to as int));
            return (a + 1, k, k + 1);
        }
    }
    let e = scan_word_at(s, a, to);
    assert(r.take(e - a) =~= s@.subrange(a as int, e as int));
    assert(r.skip(e - a) =~= s@.subrange(e as int, to as int));
    (a, e, e)
}

/// Parse the URL portion of a link reference definition.
/// Returns `(url, remaining_text)`.
/// The URL may be wrapped in `<...>` or be bare (up to the first whitespace).
pub fn parse_link_url(rest: &str) -> (r: (String, &str))
    ensures
        (r.0@, r.1@) == link_url_spec(rest@),
{
    let s = str_to_chars(rest);
    assert(s@.subrange(0, s@.len() as int) =~= s@);
    let (a, b, c) = link_url_bounds(&s, 0, s.len());
    let url = string_of(&s, a, b);
    let tail = rest.substring_char(c, s.len());
    (url, tail)
}

pub proof fn lemma_title_scan(r: Seq<char>, i: int, close: char)
    requires
        i >= 1,
    ensures
        title_scan(r, i, close) matches Some(j) ==> i <= j < r.len() && r[j] == close,
    decreases r.len() - i,
{
    if i < r.len() && r[i] != close {
        if r[i] == '\\' && i + 1 < r.len() {
            lemma_title_scan(r, i + 2, close);
        } else {
            lemma_title_scan(r, i + 1, close);
        }
    }
}

/// Scan for the closing delimiter of a title held in `s[from..to]`, starting
/// one past the opening delimiter.
fn scan_title(s: &[char], from: usize, to: usize, close: char) -> (r: Option<usize>)
    requires
        from < to <= s@.len(),
    ensures
        match (r, title_scan(s@.subrange(from as int, to as int), 1, close)) {
            (Some(j), Some(k)) => j == from + k,
            (None, None) => true,
            _ => false,
        },
{
    let ghost t = s@.subrange(from as int, to as int);
    let mut i = from + 1;
    while i < to
        invariant
            from < i <= to + 1,
            to <= s@.len(),
            t == s@.subrange(from as int, to as int),
            title_scan(t, 1, close) == title_scan(t, i - from, close),
        decreases to + 1 - i,
    {
        assert(t[i - from] == s@[i as int]);
        if s[i] == close {
            return Some(i);
        }
        if s[i] == '\\' && i + 1 < to {
            i += 2;
        } else {
            i += 1;
        }
    }
    None
}

/// Title of a link reference definition held in `s[from..to]`.
pub fn link_title_chars(s: &[char], from: usize, to: usize) -> (r: (Option<String>, usize))
    requires
        from <= to <= s@.len(),
    ensures
        match (r.0, link_title_spec(s@.subrange(from as int, to as int))) {
            (Some(x), (Some(y), n)) => x@ == y && r.1 == n,
            (None, (None, n)) => r.1 == n,
            _ => false,
        },
{
    let a = skip_ws(s, from, to);
    let ghost r = trim_start(s@.subrange(from as int, to as int));
    assert(r =~= s@.subrange(a as int, to as int));
    if a >= to {
        return (None, 0);
    }
    let open = s[a];
    if open != '"' && open != '\'' && open != '(' {
        return (None, 0);
    }
    let close = if open == '(' { ')' } else { open };
    proof {
        lemma_title_scan(r, 1, close);
    }
    match scan_title(s, a, to, close) {
        Some(j) => {
            let t = string_of(s, a + 1, j);
            assert(t@ =~= r.subrange(1, j - a));
            (Some(t), j - a + 1)
        },
        None => (None, 0),
    }
}

/// Parse an optional link title: `"..."`, `'...'`, or `(...)` .
/// Returns `(Some(title), consumed_len)` or `(None, 0)`.
pub fn parse_link_title(rest: &str) -> (r: (Option<String>, usize))
    ensures
        match (r.0, link_title_spec(rest@)) {
            (Some(x), (Some(y), n)) => x@ == y && r.1 == n,
            (None, (None, n)) => r.1 == n,
            _ => false,
        },
{
    let s = str_to_chars(rest);
    assert(s@.subrange(0, s@.len() as int) =~= s@);
    link_title_chars(&s, 0, s.len())
}

/// The label, URL and title of a link reference definition line.
#[verifier::rlimit(100)]
pub fn ref_def_parts_chars(s: &[char]) -> (r: Option<(String, String, Option<String>)>)
    ensures
        match (r, ref_def_parts(s@)) {
            (Some((l, u, t)), Some((l2, u2, t2))) => l@ == l2 && u@ == u2 && match (t, t2) {
                (Some(x), Some(y)) => x@ == y,
                (None, None) => true,
                _ => false,
            },
            (None, None) => true,
            _ => false,
        },
{
    if !link_ref_def_chars(s) {
        return None;
    }
    let n = s.len();
    let a = skip_ws(s, 0, n);
    assert(s@.subrange(0, n as int) =~= s@);
    let ghost t = trim_start(s@);
    assert(t =~= s@.subrange(a as int, n as int));
    let k = find_char(s, a + 1, n, ']');
    assert(t.skip(1) =~= s@.subrange(a + 1, n as int));
    assert(label_close(t) == k - a);
    assert(t.subrange(1, k - a) =~= s@.subrange(a + 1, k as int));
    if crate::text::is_blank(s, a + 1, k) {
        return None;
    }
    let label = normalize_label_chars(s, a + 1, k);
    let c = skip_ws(s, k + 1, n);
    assert(t.skip(k - a + 1) =~= s@.subrange(k + 1, n as int));
    let ghost ab = trim_start(t.skip(k - a + 1));
    assert(ab =~= s@.subrange(c as int, n as int));
    let d = skip_ws(s, c + 1, n);
    assert(ab.skip(1) =~= s@.subrange(c + 1, n as int));
    let (u0, u1, u2) = link_url_bounds(s, d, n);
    proof {
        assert(trim_start(ab.skip(1)) =~= s@.subrange(d as int, n as int));
    }
    let url = string_of(s, u0, u1);
    let (t0, t1) = trim_bounds(s, u2, n);
    let (title, _consumed) = link_title_chars(s, t0, t1);
    Some((label, url, title))
}

/// Extract the comment content from `<!-- ... -->`, stripping the markers
/// and any leading/trailing whitespace.
#[verifier::rlimit(100)]
pub fn extract_comment_content(raw: &[char]) -> (r: String)
    ensures
        r@ == comment_content(raw@),
{
    let n = raw.len();
    let (a, b) = trim_bounds(raw, 0, n);
    assert(raw@.subrange(0, n as int) =~= raw@);
    let ghost t = trim(raw@);
    if starts_with_chars(raw, a, b, &['<', '!', '-', '-']) {
        let i0 = a + 4;
        let ghost inner = t.skip(4);
        assert(inner =~= raw@.subrange(i0 as int, b as int));
        if b - i0 >= 3 && raw[b - 3] == '-' && raw[b - 2] == '-' && raw[b - 1] == '>' {
            assert(inner.skip(inner.len() - 3) =~= seq!['-', '-', '>']);
            let (x, y) = trim_bounds(raw, i0, b - 3);
            assert(inner.take(inner.len() - 3) =~= raw@.subrange(i0 as int, b - 3));
            return string_of(raw, x, y);
        }
        proof {
            if inner.len() >= 3 && inner.skip(inner.len() - 3) == seq!['-', '-', '>'] {
                assert(inner.skip(inner.len() - 3)[0] == raw@[b - 3]);
                assert(inner.skip(inner.len() - 3)[1] == raw@[b - 2]);
                assert(inner.skip(inner.len() - 3)[2] == raw@[b - 1]);
            }
        }
        let (x, y) = trim_bounds(raw, i0, b);
        return string_of(raw, x, y);
    }
    string_of(raw, a, b)
}

/// Parse a GFM task list marker: `[ ]`, `[x]`, `[X]`, after the list
/// marker.  Returns the state and the byte offset just past the marker,
/// counted from the first non-whitespace character of the line.
pub fn parse_task_marker(line: &str) -> (r: Option<(TaskState, usize)>)
    requires
        utf8_len(line@) + 3 <= usize::MAX,
    ensures
        match (r, task_marker_spec(line@)) {
            (Some((s1, n1)), Some((s2, n2))) => s1 == s2 && n1 == n2,
            (None, None) => true,
            _ => false,
        },
{
    let s = str_to_chars(line);
    task_marker_chars(&s)
}

/// `parse_task_marker` on characters.
#[verifier::rlimit(60)]
pub fn task_marker_chars(s: &[char]) -> (r: Option<(TaskState, usize)>)
    requires
        utf8_len(s@) + 3 <= usize::MAX,
    ensures
        match (r, task_marker_spec(s@)) {
            (Some((s1, n1)), Some((s2, n2))) => s1 == s2 && n1 == n2,
            (None, None) => true,
            _ => false,
        },
{
    let n = s.len();
    let a = skip_ws(s, 0, n);
    assert(s@.subrange(0, n as int) =~= s@);
    let ghost t = trim_start(s@);
    assert(t =~= s@.subrange(a as int, n as int));
    let d = count_digits(s, a);
    proof {
        lemma_digit_run_shift(s@, a as int, 0);
    }
    let marker_end: usize = if a < n && (s[a] == '-' || s[a] == '*' || s[a] == '+') {
        1
    } else {
        if d == 0 {
            return None;
        }
        if a + d >= n {
            return None;
        }
        if (s[a + d] as u32) >= 0x80 {
            assert(t[d as int] == s@[a + d]);
            return None;
        }
        assert(t[d as int] == s@[a + d]);
        d + 1
    };
    assert(marker_end == task_marker_end(t));
    assert(a + marker_end <= n);
    let m = a + marker_end;
    let b = skip_ws(s, m, n);
    assert(t.skip(marker_end as int) =~= s@.subrange(m as int, n as int));
    let ghost after = t.skip(marker_end as int);
    assert(after.take(lead_ws(after) as int) =~= s@.subrange(m as int, b as int));
    assert(trim_start(after) =~= s@.subrange(b as int, n as int));
    proof {
        crate::text::lemma_utf8_len_sub(s@, m as int, b as int);
        crate::text::lemma_utf8_len_sub(s@, a as int, b as int);
        crate::text::lemma_utf8_len_append(s@.subrange(a as int, m as int), s@.subrange(m as int, b as int));
        assert(s@.subrange(a as int, m as int) + s@.subrange(m as int, b as int) =~= s@.subrange(a as int, b as int));
        crate::text::lemma_utf8_len_ge(s@.subrange(a as int, m as int));
    }
    let ws_bytes = utf8_len_of(s, m, b);
    if starts_with_chars(s, b, n, &['[', ' ', ']']) {
        return Some((TaskState::Unchecked, marker_end + ws_bytes + 3));
    }
    if starts_with_chars(s, b, n, &['[', 'x', ']']) || starts_with_chars(s, b, n, &['[', 'X', ']']) {
        return Some((TaskState::Checked, marker_end + ws_bytes + 3));
    }
    None
}

/// A list marker line has a well-defined task-marker position.
pub proof fn lemma_list_marker_task_defined(line: Seq<char>)
    requires
        list_marker_line(line),
    ensures
        task_marker_defined(line),
{
    let t = trim_start(line);
    let d = digit_run(t, 0);
    let rest = t.skip(d as int);
    if !(t.len() > 0 && (t[0] == '-' || t[0] == '*' || t[0] == '+')) {
        if starts_with(t, seq!['-', ' ']) || starts_with(t, seq!['*', ' ']) || starts_with(t, seq!['+', ' ']) {
            assert(t[0] == seq!['-', ' '][0] || t[0] == seq!['*', ' '][0] || t[0] == seq!['+', ' '][0]);
        } else {
            assert(0 < d < 10);
            lemma_digit_run_bound(t, 0);
            if starts_with(rest, seq!['.', ' ']) {
                assert(rest[0] == '.');
            } else {
                assert(starts_with(rest, seq![')', ' ']));
                assert(rest[0] == ')');
            }
            assert(rest.len() > 0);
            assert(t[d as int] == rest[0]);
        }
    }
}

pub proof fn lemma_digit_run_bound(s: Seq<char>, i: int)
    requires
        0 <= i <= s.len(),
    ensures
        i + digit_run(s, i) <= s.len(),
    decreases s.len() - i,
{
    if i < s.len() && is_digit(s[i]) {
        lemma_digit_run_bound(s, i + 1);
    }
}

/// The state of the GFM task marker of a list line, if it has one.
pub fn task_state_chars(s: &[char]) -> (r: Option<TaskState>)
    ensures
        match (r, task_marker_spec(s@)) {
            (Some(s1), Some((s2, _))) => s1 == s2,
            (None, None) => true,
            _ => false,
        },
{
    let n = s.len();
    let a = skip_ws(s, 0, n);
    assert(s@.subrange(0, n as int) =~= s@);
    let ghost t = trim_start(s@);
    assert(t =~= s@.subrange(a as int, n as int));
    let d = count_digits(s, a);
    proof {
        lemma_digit_run_shift(s@, a as int, 0);
    }
    let marker_end: usize = if a < n && (s[a] == '-' || s[a] == '*' || s[a] == '+') {
        1
    } else {
        if d == 0 {
            return None;
        }
        if a + d >= n {
            return None;
        }
        if (s[a + d] as u32) >= 0x80 {
            assert(t[d as int] == s@[a + d]);
            return None;
        }
        assert(t[d as int] == s@[a + d]);
        d + 1
    };
    assert(marker_end == task_marker_end(t));
    assert(a + marker_end <= n);
    let m = a + marker_end;
    let b = skip_ws(s, m, n);
    assert(t.skip(marker_end as int) =~= s@.subrange(m as int, n as int));
    let ghost after = t.skip(marker_end as int);
    assert(trim_start(after) =~= s@.subrange(b as int, n as int));
    if starts_with_chars(s, b, n, &['[', ' ', ']']) {
        return Some(TaskState::Unchecked);
    }
    if starts_with_chars(s, b, n, &['[', 'x', ']']) || starts_with_chars(s, b, n, &['[', 'X', ']']) {
        return Some(TaskState::Checked);
    }
    None
}

// ---------------------------------------------------------------------------
// Labels match without regard to case
// ---------------------------------------------------------------------------

/// `s` and `t` are the same text up to case: whitespace at the same
/// places, and the other characters with the same lowercase mappings.
pub open spec fn same_up_to_case(s: Seq<char>, t: Seq<char>) -> bool {
    s.len() == t.len() && forall|i: int|
        0 <= i < s.len() ==> is_ws(#[trigger] s[i]) == is_ws(t[i]) && (!is_ws(s[i]) ==> lower_mapping(s[i])
            == lower_mapping(t[i]))
}

proof fn lemma_case_drop_first(s: Seq<char>, t: Seq<char>)
    requires
        same_up_to_case(s, t),
        s.len() > 0,
    ensures
        same_up_to_case(s.drop_first(), t.drop_first()),
{
    assert forall|i: int| 0 <= i < s.drop_first().len() implies is_ws(#[trigger] s.drop_first()[i]) == is_ws(
        t.drop_first()[i],
    ) && (!is_ws(s.drop_first()[i]) ==> lower_mapping(s.drop_first()[i]) == lower_mapping(t.drop_first()[i])) by {
        assert(s.drop_first()[i] == s[i + 1] && t.drop_first()[i] == t[i + 1]);
    }
}

proof fn lemma_case_drop_last(s: Seq<char>, t: Seq<char>)
    requires
        same_up_to_case(s, t),
        s.len() > 0,
    ensures
        same_up_to_case(s.drop_last(), t.drop_last()),
{
    assert forall|i: int| 0 <= i < s.drop_last().len() implies is_ws(#[trigger] s.drop_last()[i]) == is_ws(
        t.drop_last()[i],
    ) && (!is_ws(s.drop_last()[i]) ==> lower_mapping(s.drop_last()[i]) == lower_mapping(t.drop_last()[i])) by {
        assert(s.drop_last()[i] == s[i] && t.drop_last()[i] == t[i]);
    }
}

proof fn lemma_case_lead_ws(s: Seq<char>, t: Seq<char>)
    requires
        same_up_to_case(s, t),
    ensures
        lead_ws(s) == lead_ws(t),
    decreases s.len(),
{
    if s.len() > 0 {
        assert(is_ws(s[0]) == is_ws(t[0]));
        lemma_case_drop_first(s, t);
        lemma_case_lead_ws(s.drop_first(), t.drop_first());
    }
}

proof fn lemma_case_trail_ws(s: Seq<char>, t: Seq<char>)
    requires
        same_up_to_case(s, t),
    ensures
        crate::text::trail_ws(s) == crate::text::trail_ws(t),
    decreases s.len(),
{
    if s.len() > 0 {
        assert(is_ws(s.last()) == is_ws(t.last()));
        lemma_case_drop_last(s, t);
        lemma_case_trail_ws(s.drop_last(), t.drop_last());
    }
}

proof fn lemma_case_collapse(s: Seq<char>, t: Seq<char>)
    requires
        same_up_to_case(s, t),
    ensures
        collapse_lower(s) == collapse_lower(t),
    decreases s.len(),
{
    if s.len() > 0 {
        assert(is_ws(s.last()) == is_ws(t.last()));
        if s.len() >= 2 {
            assert(is_ws(s[s.len() - 2]) == is_ws(t[t.len() - 2]));
        }
        lemma_case_drop_last(s, t);
        lemma_case_collapse(s.drop_last(), t.drop_last());
    }
}

/// Link labels match without regard to case: two labels whose characters
/// have the same lowercase mappings (and whitespace at the same places)
/// normalise to the same label.
pub proof fn law_normalize_label_ignores_case(s: Seq<char>, t: Seq<char>)
    requires
        same_up_to_case(s, t),
    ensures
        normalize_label_spec(s) == normalize_label_spec(t),
{
    lemma_case_lead_ws(s, t);
    let a = trim_start(s);
    let b = trim_start(t);
    let k = lead_ws(s);
    crate::text::lemma_lead_ws_bound(s);
    assert(same_up_to_case(a, b)) by {
        assert forall|i: int| 0 <= i < a.len() implies is_ws(#[trigger] a[i]) == is_ws(b[i]) && (!is_ws(a[i])
            ==> lower_mapping(a[i]) == lower_mapping(b[i])) by {
            assert(a[i] == s[i + k] && b[i] == t[i + k]);
        }
    }
    lemma_case_trail_ws(a, b);
    crate::text::lemma_trail_ws_bound(a);
    let x = trim(s);
    let y = trim(t);
    assert(same_up_to_case(x, y)) by {
        assert forall|i: int| 0 <= i < x.len() implies is_ws(#[trigger] x[i]) == is_ws(y[i]) && (!is_ws(x[i])
            ==> lower_mapping(x[i]) == lower_mapping(y[i])) by {
            assert(x[i] == a[i] && y[i] == b[i]);
        }
    }
    lemma_case_collapse(x, y);
}


/// Every character of `s` is ASCII.
pub open spec fn all_ascii(s: Seq<char>) -> bool {
    forall|i: int| 0 <= i < s.len() ==> ((#[trigger] s[i]) as u32) < 128
}

/// `t` has the shape of a normalised ASCII label body: ASCII, every
/// whitespace character a space, no two spaces in a row, and every other
/// character its own lowercase.
pub open spec fn lower_form(t: Seq<char>) -> bool {
    &&& all_ascii(t)
    &&& forall|i: int| 0 <= i < t.len() && is_ws(#[trigger] t[i]) ==> t[i] == ' '
    &&& forall|i: int| 0 <= i < t.len() && !is_ws(#[trigger] t[i]) ==> ascii_lower(t[i]) == t[i]
    &&& forall|i: int, j: int|
        #![trigger t[i], t[j]]
        0 <= i && j == i + 1 && j < t.len() ==> !(is_ws(t[i]) && is_ws(t[j]))
}

proof fn lemma_ascii_lower_char(c: char)
    requires
        (c as u32) < 128,
    ensures
        (ascii_lower(c) as u32) < 128,
        is_ws(ascii_lower(c)) == is_ws(c),
        ascii_lower(ascii_lower(c)) == ascii_lower(c),
        is_ws(c) ==> ascii_lower(c) == c,
        lower_mapping(c) == seq![ascii_lower(c)],
{
    let u = c as u32;
    if 65 <= u <= 90 {
        let d = (u + 32) as char;
        assert((d as u32) == u + 32);
    }
}

proof fn lemma_all_ascii_drop_last(s: Seq<char>)
    requires
        all_ascii(s),
        s.len() > 0,
    ensures
        all_ascii(s.drop_last()),
{
    assert forall|i: int| 0 <= i < s.drop_last().len() implies ((#[trigger] s.drop_last()[i]) as u32) < 128 by {
        assert(s.drop_last()[i] == s[i]);
    }
}

/// What collapsing and lowercasing an ASCII text gives: a label body whose
/// first and last characters are whitespace exactly when those of the text
/// are.
proof fn lemma_collapse_lower_form(u: Seq<char>)
    requires
        all_ascii(u),
    ensures
        lower_form(collapse_lower(u)),
        u.len() > 0 ==> {
            let n = collapse_lower(u);
            &&& n.len() > 0
            &&& is_ws(n.last()) == is_ws(u.last())
            &&& is_ws(n[0]) == is_ws(u[0])
        },
    decreases u.len(),
{
    if u.len() > 0 {
        let q = u.drop_last();
        lemma_all_ascii_drop_last(u);
        lemma_collapse_lower_form(q);
        let p = collapse_lower(q);
        let c = u.last();
        let n = collapse_lower(u);
        if u.len() >= 2 {
            assert(q.last() == u[u.len() - 2]);
            assert(q[0] == u[0]);
        }
        lemma_ascii_lower_char(c);
        if is_ws(c) && u.len() >= 2 && is_ws(u[u.len() - 2]) {
            assert(n == p);
        } else {
            let x = if is_ws(c) { ' ' } else { ascii_lower(c) };
            assert(n =~= p.push(x));
            if !is_ws(c) {
                lemma_ascii_lower_char(ascii_lower(c));
            }
            assert(is_ws(x) == is_ws(c));
            assert forall|i: int| 0 <= i < n.len() implies ((#[trigger] n[i]) as u32) < 128 by {
                if i < p.len() {
                    assert(n[i] == p[i]);
                }
            }
            assert forall|i: int| 0 <= i < n.len() && is_ws(#[trigger] n[i]) implies n[i] == ' ' by {
                if i < p.len() {
                    assert(n[i] == p[i]);
                }
            }
            assert forall|i: int| 0 <= i < n.len() && !is_ws(#[trigger] n[i]) implies ascii_lower(n[i]) == n[i] by {
                if i < p.len() {
                    assert(n[i] == p[i]);
                }
            }
            assert forall|i: int, j: int| #![trigger n[i], n[j]] 0 <= i && j == i + 1 && j < n.len() implies !(is_ws(n[i])
                && is_ws(n[j])) by {
                assert(n[i] == p[i]);
                if j < p.len() {
                    assert(n[j] == p[j]);
                    assert(p[i] == p[i] && p[j] == p[j]);
                } else {
                    assert(n[j] == x);
                    assert(p.last() == p[i]);
                }
            }
            if p.len() > 0 {
                assert(n[0] == p[0]);
            }
        }
    }
}

/// A label body in lower form is left as it is by collapsing and
/// lowercasing.
proof fn lemma_lower_form_fixed(t: Seq<char>)
    requires
        lower_form(t),
    ensures
        collapse_lower(t) == t,
    decreases t.len(),
{
    if t.len() > 0 {
        let q = t.drop_last();
        assert(lower_form(q)) by {
            assert forall|i: int| 0 <= i < q.len() implies ((#[trigger] q[i]) as u32) < 128 by {
                assert(q[i] == t[i]);
            }
            assert forall|i: int| 0 <= i < q.len() && is_ws(#[trigger] q[i]) implies q[i] == ' ' by {
                assert(q[i] == t[i]);
            }
            assert forall|i: int| 0 <= i < q.len() && !is_ws(#[trigger] q[i]) implies ascii_lower(q[i]) == q[i] by {
                assert(q[i] == t[i]);
            }
            assert forall|i: int, j: int| #![trigger q[i], q[j]] 0 <= i && j == i + 1 && j < q.len() implies !(is_ws(q[i])
                && is_ws(q[j])) by {
                assert(q[i] == t[i] && q[j] == t[j]);
            }
        }
        lemma_lower_form_fixed(q);
        let c = t.last();
        assert(c == t[t.len() - 1]);
        lemma_ascii_lower_char(c);
        if t.len() >= 2 {
            assert(t[t.len() - 2] == t[t.len() - 2]);
        }
        assert(collapse_lower(t) =~= q.push(c));
        assert(q.push(c) =~= t);
    }
}

/// The trimmed text starts and ends with a character that is not
/// whitespace, and keeps the characters ASCII.
proof fn lemma_trim_ends(s: Seq<char>)
    requires
        all_ascii(s),
    ensures
        all_ascii(trim(s)),
        trim(s).len() > 0 ==> !is_ws(trim(s)[0]) && !is_ws(trim(s).last()),
{
    crate::text::lemma_lead_ws_bound(s);
    let a = trim_start(s);
    crate::text::lemma_trail_ws_bound(a);
    let x = trim(s);
    assert forall|i: int| 0 <= i < x.len() implies ((#[trigger] x[i]) as u32) < 128 by {
        assert(x[i] == s[i + lead_ws(s)]);
    }
    if x.len() > 0 {
        assert(x[0] == a[0]);
        assert(x.last() == a[a.len() - crate::text::trail_ws(a) - 1]);
    }
}

/// Normalising an ASCII label twice gives the same label as normalising it
/// once.
pub proof fn law_normalize_label_idempotent(s: Seq<char>)
    requires
        all_ascii(s),
    ensures
        normalize_label_spec(normalize_label_spec(s)) == normalize_label_spec(s),
{
    let x = trim(s);
    lemma_trim_ends(s);
    lemma_collapse_lower_form(x);
    let n = collapse_lower(x);
    crate::text::lemma_lead_ws_unique(n, 0);
    assert(n.skip(0) =~= n);
    crate::text::lemma_trail_ws_unique(n, n.len() as int);
    assert(n.take(n.len() as int) =~= n);
    assert(trim(n) == n);
    lemma_lower_form_fixed(n);
}

/// Letter case does not matter to an ASCII label: lowercasing it first
/// normalises to the same label.
pub proof fn law_normalize_label_lowercase(s: Seq<char>)
    requires
        all_ascii(s),
    ensures
        normalize_label_spec(s.map_values(|c: char| ascii_lower(c))) == normalize_label_spec(s),
{
    let t = s.map_values(|c: char| ascii_lower(c));
    assert forall|i: int| 0 <= i < t.len() implies ((#[trigger] t[i]) as u32) < 128 by {
        lemma_ascii_lower_char(s[i]);
    }
    assert(same_up_to_case(t, s)) by {
        assert forall|i: int| 0 <= i < t.len() implies is_ws(#[trigger] t[i]) == is_ws(s[i]) && (!is_ws(t[i])
            ==> lower_mapping(t[i]) == lower_mapping(s[i])) by {
            lemma_ascii_lower_char(s[i]);
            lemma_ascii_lower_char(t[i]);
        }
    }
    law_normalize_label_ignores_case(t, s);
}

} // verus!
