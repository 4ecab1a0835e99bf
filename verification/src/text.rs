//! Character-level text model shared by the parsers and the renderer.
//!
//! Source text is handled as a sequence of `char`s (the view of a `str`).
//! This module defines the character classes the parsers rely on, the
//! trimming functions over character sequences, and the conversions between
//! `str`, `Vec<char>` and `String`.

use vstd::prelude::*;

verus! {

/// Unicode `White_Space`, the class that `char::is_whitespace` tests.
pub open spec fn is_ws(c: char) -> bool {
    let u = c as u32;
    ||| 0x09 <= u <= 0x0d
    ||| u == 0x20
    ||| u == 0x85
    ||| u == 0xa0
    ||| u == 0x1680
    ||| 0x2000 <= u <= 0x200a
    ||| u == 0x2028
    ||| u == 0x2029
    ||| u == 0x202f
    ||| u == 0x205f
    ||| u == 0x3000
}

pub open spec fn is_digit(c: char) -> bool {
    '0' <= c <= '9'
}

pub open spec fn is_alpha(c: char) -> bool {
    ('a' <= c <= 'z') || ('A' <= c <= 'Z')
}

pub open spec fn is_alnum(c: char) -> bool {
    is_alpha(c) || is_digit(c)
}


/// Length in bytes of the UTF-8 encoding of `c`.
pub open spec fn char_utf8_len(c: char) -> nat {
    vstd::utf8::encode_scalar(c as u32).len()
}

/// Length in bytes of the UTF-8 encoding of `s`.
pub open spec fn utf8_len(s: Seq<char>) -> nat {
    vstd::utf8::encode_utf8(s).len()
}

/// Number of leading whitespace characters of `s`.
pub open spec fn lead_ws(s: Seq<char>) -> nat
    decreases s.len(),
{
    if s.len() > 0 && is_ws(s[0]) {
        1 + lead_ws(s.drop_first())
    } else {
        0
    }
}

/// Number of trailing whitespace characters of `s`.
pub open spec fn trail_ws(s: Seq<char>) -> nat
    decreases s.len(),
{
    if s.len() > 0 && is_ws(s.last()) {
        1 + trail_ws(s.drop_last())
    } else {
        0
    }
}

/// `str::trim_start`.
pub open spec fn trim_start(s: Seq<char>) -> Seq<char> {
    s.skip(lead_ws(s) as int)
}

/// `str::trim_end`.
pub open spec fn trim_end(s: Seq<char>) -> Seq<char> {
    s.take(s.len() - trail_ws(s))
}

/// `str::trim`.
pub open spec fn trim(s: Seq<char>) -> Seq<char> {
    trim_end(trim_start(s))
}

/// Every character of `s` is whitespace.
pub open spec fn all_ws(s: Seq<char>) -> bool {
    forall|k: int| 0 <= k < s.len() ==> is_ws(#[trigger] s[k])
}

/// `s` starts with `p`.
pub open spec fn starts_with(s: Seq<char>, p: Seq<char>) -> bool {
    p.len() <= s.len() && forall|k: int| 0 <= k < p.len() ==> #[trigger] s[k] == p[k]
}

/// `s` contains the character `c`.
pub open spec fn has_char(s: Seq<char>, c: char) -> bool {
    exists|k: int| 0 <= k < s.len() && s[k] == c
}

pub proof fn lemma_lead_ws_bound(s: Seq<char>)
    ensures
        lead_ws(s) <= s.len(),
        forall|k: int| 0 <= k < lead_ws(s) ==> is_ws(#[trigger] s[k]),
        lead_ws(s) < s.len() ==> !is_ws(s[lead_ws(s) as int]),
    decreases s.len(),
{
    if s.len() > 0 && is_ws(s[0]) {
        lemma_lead_ws_bound(s.drop_first());
        assert forall|k: int| 0 <= k < lead_ws(s) implies is_ws(#[trigger] s[k]) by {
            if k > 0 {
                assert(s[k] == s.drop_first()[k - 1]);
            }
        }
    }
}

pub proof fn lemma_trail_ws_bound(s: Seq<char>)
    ensures
        trail_ws(s) <= s.len(),
        forall|k: int| s.len() - trail_ws(s) <= k < s.len() ==> is_ws(#[trigger] s[k]),
        trail_ws(s) < s.len() ==> !is_ws(s[s.len() - trail_ws(s) - 1]),
    decreases s.len(),
{
    if s.len() > 0 && is_ws(s.last()) {
        lemma_trail_ws_bound(s.drop_last());
        assert forall|k: int| s.len() - trail_ws(s) <= k < s.len() implies is_ws(#[trigger] s[k]) by {
            if k < s.len() - 1 {
                assert(s[k] == s.drop_last()[k]);
            }
        }
    }
}

/// `lead_ws` is characterised by where its run of whitespace stops.
pub proof fn lemma_lead_ws_unique(s: Seq<char>, j: int)
    requires
        0 <= j <= s.len(),
        forall|k: int| 0 <= k < j ==> is_ws(#[trigger] s[k]),
        j == s.len() || !is_ws(s[j]),
    ensures
        lead_ws(s) == j,
    decreases s.len(),
{
    if j > 0 {
        let t = s.drop_first();
        assert forall|k: int| 0 <= k < j - 1 implies is_ws(#[trigger] t[k]) by {
            assert(t[k] == s[k + 1]);
        }
        if j < s.len() {
            assert(t[j - 1] == s[j]);
        }
        lemma_lead_ws_unique(t, j - 1);
    }
}

/// `trail_ws` is characterised by where its run of whitespace stops.
pub proof fn lemma_trail_ws_unique(s: Seq<char>, j: int)
    requires
        0 <= j <= s.len(),
        forall|k: int| j <= k < s.len() ==> is_ws(#[trigger] s[k]),
        j == 0 || !is_ws(s[j - 1]),
    ensures
        trail_ws(s) == s.len() - j,
    decreases s.len(),
{
    if j < s.len() {
        let t = s.drop_last();
        assert forall|k: int| j <= k < t.len() implies is_ws(#[trigger] t[k]) by {
            assert(t[k] == s[k]);
        }
        if j > 0 {
            assert(t[j - 1] == s[j - 1]);
        }
        lemma_trail_ws_unique(t, j);
    }
}

pub proof fn lemma_utf8_len_append(a: Seq<char>, b: Seq<char>)
    ensures
        utf8_len(a + b) == utf8_len(a) + utf8_len(b),
    decreases a.len(),
{
    if a.len() == 0 {
        assert(a + b =~= b);
    } else {
        assert((a + b).drop_first() =~= a.drop_first() + b);
        assert((a + b)[0] == a[0]);
        lemma_utf8_len_append(a.drop_first(), b);
    }
}

pub proof fn lemma_utf8_len_single(c: char)
    ensures
        utf8_len(seq![c]) == char_utf8_len(c),
        1 <= char_utf8_len(c) <= 4,
{
    let s = seq![c];
    assert(s.drop_first() =~= Seq::<char>::empty());
    assert(vstd::utf8::encode_utf8(s.drop_first()) =~= Seq::<u8>::empty());
    assert(s[0] == c);
    assert(vstd::utf8::encode_utf8(s) == vstd::utf8::encode_scalar(s[0] as u32)
        + vstd::utf8::encode_utf8(s.drop_first()));
    assert(vstd::utf8::encode_utf8(s) =~= vstd::utf8::encode_scalar(c as u32));
    vstd::utf8::char_is_scalar(c);
}

pub proof fn lemma_utf8_len_ge(s: Seq<char>)
    ensures
        utf8_len(s) >= s.len(),
    decreases s.len(),
{
    if s.len() > 0 {
        lemma_utf8_len_ge(s.drop_first());
        vstd::utf8::char_is_scalar(s[0]);
    }
}

/// The bytes of a part of `s` are a part of the bytes of `s`.
pub proof fn lemma_utf8_len_sub(s: Seq<char>, a: int, b: int)
    requires
        0 <= a <= b <= s.len(),
    ensures
        utf8_len(s.subrange(a, b)) <= utf8_len(s),
        utf8_len(s.subrange(a, b)) >= b - a,
{
    lemma_utf8_len_append(s.take(a), s.skip(a));
    assert(s.take(a) + s.skip(a) =~= s);
    lemma_utf8_len_append(s.subrange(a, b), s.skip(b));
    assert(s.subrange(a, b) + s.skip(b) =~= s.skip(a));
    lemma_utf8_len_ge(s.subrange(a, b));
}

/// `char::is_whitespace`.
pub fn is_whitespace(c: char) -> (b: bool)
    ensures
        b == is_ws(c),
{
    let u = c as u32;
    (0x09 <= u && u <= 0x0d) || u == 0x20 || u == 0x85 || u == 0xa0 || u == 0x1680 || (0x2000
        <= u && u <= 0x200a) || u == 0x2028 || u == 0x2029 || u == 0x202f || u == 0x205f || u
        == 0x3000
}

/// `char::is_ascii_digit`.
pub fn is_ascii_digit(c: char) -> (b: bool)
    ensures
        b == is_digit(c),
{
    '0' <= c && c <= '9'
}

/// `char::is_ascii_alphabetic`.
pub fn is_ascii_alphabetic(c: char) -> (b: bool)
    ensures
        b == is_alpha(c),
{
    ('a' <= c && c <= 'z') || ('A' <= c && c <= 'Z')
}

/// `char::is_ascii_alphanumeric`.
pub fn is_ascii_alphanumeric(c: char) -> (b: bool)
    ensures
        b == is_alnum(c),
{
    is_ascii_alphabetic(c) || is_ascii_digit(c)
}


/// `char::len_utf8`.
pub fn len_utf8(c: char) -> (n: usize)
    ensures
        n == char_utf8_len(c),
{
    proof {
        vstd::utf8::char_is_scalar(c);
    }
    let u = c as u32;
    if u < 0x80 {
        1
    } else if u < 0x800 {
        2
    } else if u < 0x10000 {
        3
    } else {
        4
    }
}

/// The characters of `s`, in order.
pub fn str_to_chars(s: &str) -> (v: Vec<char>)
    ensures
        v@ == s@,
{
    let mut v: Vec<char> = Vec::new();
    for c in it: s.chars()
        invariant
            v@ == it.seq().take(it.index() as int),
            it.seq() == s@,
    {
        v.push(c);
    }
    v
}

/// The Unicode lowercase mapping of `c` (`char::to_lowercase`): one or
/// more characters.
pub uninterp spec fn char_lowercase(c: char) -> Seq<char>;

/// The ASCII lowercase of `c`: `'A'..='Z'` become `'a'..='z'`, every other
/// character stays.
pub open spec fn ascii_lower(c: char) -> char {
    if 65 <= (c as u32) <= 90 {
        ((c as u32) + 32) as char
    } else {
        c
    }
}

/// The lowercase of `c` as a label sees it: the ASCII lowercase for an
/// ASCII character, the Unicode lowercase mapping otherwise.
pub open spec fn lower_mapping(c: char) -> Seq<char> {
    if (c as u32) < 128 {
        seq![ascii_lower(c)]
    } else {
        char_lowercase(c)
    }
}

/// `char::to_lowercase`, collected into a string: a function of `c` alone.
/// Of an ASCII character it gives the single character of
/// `char::to_ascii_lowercase`, as std documents (an uppercase ASCII letter
/// becomes its lowercase letter, anything else ASCII stays); of any other
/// character, which characters it gives is left unsaid.
#[verifier::external_body]
pub(crate) fn lowercase_of(c: char) -> (r: String)
    ensures
        r@ == char_lowercase(c),
        (c as u32) < 128 ==> r@ == seq![ascii_lower(c)],
{
    c.to_lowercase().collect()
}

/// `String::push`: appends one character.
#[verifier::external_body]
pub(crate) fn push_char(s: &mut String, c: char)
    ensures
        final(s)@ == old(s)@.push(c),
{
    s.push(c);
}

/// Appends `t` to `s`.
pub fn push_str(s: &mut String, t: &str)
    ensures
        final(s)@ == old(s)@ + t@,
{
    s.append(t);
}

/// Appends the characters `v[from..to]` to `s`.
pub fn push_chars(s: &mut String, v: &[char], from: usize, to: usize)
    requires
        from <= to <= v@.len(),
    ensures
        final(s)@ == old(s)@ + v@.subrange(from as int, to as int),
{
    let mut i = from;
    while i < to
        invariant
            from <= i <= to <= v@.len(),
            s@ == old(s)@ + v@.subrange(from as int, i as int),
        decreases to - i,
    {
        push_char(s, v[i]);
        i += 1;
        assert(v@.subrange(from as int, i as int) =~= v@.subrange(from as int, i - 1).push(
            v@[i - 1],
        ));
    }
}

/// A `String` holding `v[from..to]`.
pub fn string_of(v: &[char], from: usize, to: usize) -> (s: String)
    requires
        from <= to <= v@.len(),
    ensures
        s@ == v@.subrange(from as int, to as int),
{
    let mut s = String::new();
    push_chars(&mut s, v, from, to);
    s
}

/// The characters of a `String`.
pub fn string_chars(s: &String) -> (v: Vec<char>)
    ensures
        v@ == s@,
{
    str_to_chars(s.as_str())
}

/// Index of the first non-whitespace character in `s[from..to]` (or `to`).
pub fn skip_ws(s: &[char], from: usize, to: usize) -> (j: usize)
    requires
        from <= to <= s@.len(),
    ensures
        from <= j <= to,
        j == from + lead_ws(s@.subrange(from as int, to as int)),
        forall|k: int| from <= k < j ==> is_ws(#[trigger] s@[k]),
        j < to ==> !is_ws(s@[j as int]),
{
    let mut j = from;
    while j < to && is_whitespace(s[j])
        invariant
            from <= j <= to <= s@.len(),
            forall|k: int| from <= k < j ==> is_ws(#[trigger] s@[k]),
        decreases to - j,
    {
        j += 1;
    }
    proof {
        let t = s@.subrange(from as int, to as int);
        assert forall|k: int| 0 <= k < j - from implies is_ws(#[trigger] t[k]) by {
            assert(t[k] == s@[from + k]);
        }
        if j < to {
            assert(t[j - from] == s@[j as int]);
        }
        lemma_lead_ws_unique(t, j - from);
    }
    j
}

/// End index (exclusive) of `s[from..to]` once trailing whitespace is dropped.
pub fn skip_ws_back(s: &[char], from: usize, to: usize) -> (j: usize)
    requires
        from <= to <= s@.len(),
    ensures
        from <= j <= to,
        to - j == trail_ws(s@.subrange(from as int, to as int)),
        forall|k: int| j <= k < to ==> is_ws(#[trigger] s@[k]),
        j > from ==> !is_ws(s@[j - 1]),
{
    let mut j = to;
    while j > from && is_whitespace(s[j - 1])
        invariant
            from <= j <= to <= s@.len(),
            forall|k: int| j <= k < to ==> is_ws(#[trigger] s@[k]),
        decreases j - from,
    {
        j -= 1;
    }
    proof {
        let t = s@.subrange(from as int, to as int);
        assert forall|k: int| j - from <= k < t.len() implies is_ws(#[trigger] t[k]) by {
            assert(t[k] == s@[from + k]);
        }
        if j > from {
            assert(t[j - from - 1] == s@[j - 1]);
        }
        lemma_trail_ws_unique(t, j - from);
    }
    j
}

/// Bounds `(a, b)` with `s[a..b] == trim(s[from..to])`.
pub fn trim_bounds(s: &[char], from: usize, to: usize) -> (r: (usize, usize))
    requires
        from <= to <= s@.len(),
    ensures
        from <= r.0 <= r.1 <= to,
        s@.subrange(r.0 as int, r.1 as int) == trim(s@.subrange(from as int, to as int)),
        r.0 == from + lead_ws(s@.subrange(from as int, to as int)),
{
    let a = skip_ws(s, from, to);
    let b = skip_ws_back(s, a, to);
    proof {
        let t = s@.subrange(from as int, to as int);
        let ts = trim_start(t);
        assert(ts =~= s@.subrange(a as int, to as int));
        assert(trim_end(ts) =~= s@.subrange(a as int, b as int));
    }
    (a, b)
}

/// `s[from..to]` starts with the characters of `p`.
pub fn starts_with_at(s: &[char], from: usize, to: usize, p: &str) -> (b: bool)
    requires
        from <= to <= s@.len(),
    ensures
        b == starts_with(s@.subrange(from as int, to as int), p@),
{
    let pc = str_to_chars(p);
    if pc.len() > to - from {
        return false;
    }
    let mut k: usize = 0;
    while k < pc.len()
        invariant
            k <= pc@.len() <= to - from,
            from <= to <= s@.len(),
            pc@ == p@,
            forall|m: int| 0 <= m < k ==> s@[from + m] == pc@[m],
        decreases pc@.len() - k,
    {
        if s[from + k] != pc[k] {
            proof {
                let t = s@.subrange(from as int, to as int);
                assert(t[k as int] != pc@[k as int]);
            }
            return false;
        }
        k += 1;
    }
    proof {
        let t = s@.subrange(from as int, to as int);
        assert forall|m: int| 0 <= m < pc@.len() implies #[trigger] t[m] == pc@[m] by {
            assert(t[m] == s@[from + m]);
        }
    }
    true
}

/// `s[from..to]` is all whitespace (`str::trim().is_empty()`).
pub fn is_blank(s: &[char], from: usize, to: usize) -> (b: bool)
    requires
        from <= to <= s@.len(),
    ensures
        b == all_ws(s@.subrange(from as int, to as int)),
        b == (trim(s@.subrange(from as int, to as int)).len() == 0),
{
    let j = skip_ws(s, from, to);
    proof {
        let t = s@.subrange(from as int, to as int);
        lemma_lead_ws_bound(t);
        lemma_trail_ws_bound(trim_start(t));
        if j < to {
            assert(t[j - from] == s@[j as int]);
            assert(!all_ws(t));
            assert(trim_start(t)[0] == t[j - from]);
            assert(trim(t).len() > 0);
        } else {
            assert forall|k: int| 0 <= k < t.len() implies is_ws(#[trigger] t[k]) by {
                assert(t[k] == s@[from + k]);
            }
        }
    }
    j == to
}

/// Whether `s[from..to]` contains `c`.
pub fn contains_char(s: &[char], from: usize, to: usize, c: char) -> (b: bool)
    requires
        from <= to <= s@.len(),
    ensures
        b == has_char(s@.subrange(from as int, to as int), c),
{
    let mut k = from;
    while k < to
        invariant
            from <= k <= to <= s@.len(),
            forall|m: int| from <= m < k ==> s@[m] != c,
        decreases to - k,
    {
        if s[k] == c {
            assert(s@.subrange(from as int, to as int)[k - from] == c);
            return true;
        }
        k += 1;
    }
    proof {
        let t = s@.subrange(from as int, to as int);
        assert forall|m: int| 0 <= m < t.len() implies t[m] != c by {
            assert(t[m] == s@[from + m]);
        }
    }
    false
}

/// Byte length of the UTF-8 encoding of `s[from..to]`.
pub fn utf8_len_of(s: &[char], from: usize, to: usize) -> (n: usize)
    requires
        from <= to <= s@.len(),
        utf8_len(s@.subrange(from as int, to as int)) <= usize::MAX,
    ensures
        n == utf8_len(s@.subrange(from as int, to as int)),
{
    let mut n: usize = 0;
    let mut k = from;
    while k < to
        invariant
            from <= k <= to <= s@.len(),
            n == utf8_len(s@.subrange(from as int, k as int)),
            utf8_len(s@.subrange(from as int, to as int)) <= usize::MAX,
        decreases to - k,
    {
        proof {
            assert(s@.subrange(from as int, k + 1) =~= s@.subrange(from as int, k as int) + seq![s@[k as int]]);
            lemma_utf8_len_append(s@.subrange(from as int, k as int), seq![s@[k as int]]);
            lemma_utf8_len_single(s@[k as int]);
            lemma_utf8_len_append(s@.subrange(from as int, k + 1), s@.subrange(k + 1, to as int));
            assert(s@.subrange(from as int, k + 1) + s@.subrange(k + 1, to as int) =~= s@.subrange(from as int, to as int));
        }
        n = n + len_utf8(s[k]);
        k += 1;
    }
    n
}


/// Length of the run of `c` starting at index `i`.
pub open spec fn run_len(s: Seq<char>, i: int, c: char) -> nat
    decreases s.len() - i,
{
    if 0 <= i < s.len() && s[i] == c {
        1 + run_len(s, i + 1, c)
    } else {
        0
    }
}

/// Index of the first `c` in `s` at or after `i`, or `s.len()`.
pub open spec fn index_of_from(s: Seq<char>, i: int, c: char) -> int
    decreases s.len() - i,
{
    if i < 0 {
        s.len() as int
    } else if i < s.len() && s[i] != c {
        index_of_from(s, i + 1, c)
    } else if i < s.len() {
        i
    } else {
        s.len() as int
    }
}

/// Index of the first `c` in `s`, or `s.len()`.
pub open spec fn index_of(s: Seq<char>, c: char) -> int {
    index_of_from(s, 0, c)
}

pub proof fn lemma_index_of_from(s: Seq<char>, i: int, c: char)
    requires
        0 <= i <= s.len(),
    ensures
        i <= index_of_from(s, i, c) <= s.len(),
        forall|k: int| i <= k < index_of_from(s, i, c) ==> s[k] != c,
        index_of_from(s, i, c) < s.len() ==> s[index_of_from(s, i, c)] == c,
    decreases s.len() - i,
{
    if i < s.len() && s[i] != c {
        lemma_index_of_from(s, i + 1, c);
    }
}

/// `s` split at every `c` (`str::split`): one more piece than there are `c`s.
pub open spec fn split_on(s: Seq<char>, c: char) -> Seq<Seq<char>>
    decreases s.len(),
{
    let k = index_of(s, c);
    if 0 <= k < s.len() {
        seq![s.take(k)] + split_on(s.skip(k + 1), c)
    } else {
        seq![s]
    }
}

/// `s` without one trailing carriage return.
pub open spec fn strip_cr(s: Seq<char>) -> Seq<char> {
    if s.len() > 0 && s.last() == '\r' {
        s.drop_last()
    } else {
        s
    }
}

/// The lines of `s` (`str::lines`): split at `\n`, a `\r` before the
/// `\n` removed, no final empty line after a trailing `\n`.
pub open spec fn lines_of(s: Seq<char>) -> Seq<Seq<char>>
    decreases s.len(),
{
    if s.len() == 0 {
        Seq::empty()
    } else {
        let k = index_of(s, '\n');
        if 0 <= k < s.len() {
            seq![strip_cr(s.take(k))] + lines_of(s.skip(k + 1))
        } else {
            seq![s]
        }
    }
}

/// Number of characters of `s` that are not whitespace.
pub open spec fn count_non_ws(s: Seq<char>) -> nat
    decreases s.len(),
{
    if s.len() == 0 {
        0
    } else {
        count_non_ws(s.drop_last()) + if is_ws(s.last()) {
            0nat
        } else {
            1nat
        }
    }
}

/// Index of the first `c` in `s[from..to]`, or `to`.
pub fn find_char(s: &[char], from: usize, to: usize, c: char) -> (k: usize)
    requires
        from <= to <= s@.len(),
    ensures
        from <= k <= to,
        k == from + index_of(s@.subrange(from as int, to as int), c),
        forall|m: int| from <= m < k ==> s@[m] != c,
        k < to ==> s@[k as int] == c,
{
    let mut k = from;
    while k < to && s[k] != c
        invariant
            from <= k <= to <= s@.len(),
            forall|m: int| from <= m < k ==> s@[m] != c,
        decreases to - k,
    {
        k += 1;
    }
    proof {
        let t = s@.subrange(from as int, to as int);
        lemma_index_of_from(t, 0, c);
        let j = index_of(t, c);
        if j < k - from {
            assert(t[j] == s@[from + j]);
        }
        if k - from < j {
            assert(t[k - from] == s@[k as int]);
        }
    }
    k
}

/// Length of the run of `c` in `s` starting at `from`.
pub fn count_run(s: &[char], from: usize, c: char) -> (n: usize)
    requires
        from <= s@.len(),
    ensures
        n == run_len(s@, from as int, c),
        from + n <= s@.len(),
{
    let mut k = from;
    while k < s.len() && s[k] == c
        invariant
            from <= k <= s@.len(),
            run_len(s@, from as int, c) == (k - from) + run_len(s@, k as int, c),
        decreases s@.len() - k,
    {
        k += 1;
    }
    k - from
}

/// The UTF-8 encoding of a `str` fits in memory.
pub fn str_bytes_bound(s: &str)
    ensures
        utf8_len(s@) <= usize::MAX,
{
    let b = s.as_bytes();
    let _n = b.len();
}
} // verus!
