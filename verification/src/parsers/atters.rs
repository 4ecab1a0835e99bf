//! Kramdown block attribute parser (`{:#id .class key="val"}`).

use crate::text::{is_alnum, is_alpha, is_ascii_alphabetic, is_ascii_alphanumeric, is_whitespace, is_ws, skip_ws, str_to_chars, string_of, trim_start};
use crate::tokens::Attributes;
use vstd::prelude::*;

verus! {

/// The content of parsed attributes, as character sequences.
pub struct AttrModel {
    pub id: Option<Seq<char>>,
    pub classes: Option<Seq<Seq<char>>>,
    pub kvs: Option<Seq<(Seq<char>, Seq<char>)>>,
}

/// The model of an [`Attributes`] value.
pub open spec fn attr_model(a: Attributes) -> AttrModel {
    AttrModel {
        id: match a.id {
            Some(s) => Some(s@),
            None => None,
        },
        classes: match a.classes {
            Some(v) => Some(v@.map_values(|x: String| x@)),
            None => None,
        },
        kvs: match a.attributes {
            Some(v) => Some(v@.map_values(|p: (String, String)| (p.0@, p.1@))),
            None => None,
        },
    }
}

/// Characters that may start an attribute key.
pub open spec fn ident_start(c: char) -> bool {
    is_alpha(c) || c == '_' || c == '-'
}

/// Characters of identifiers, classes and keys.
pub open spec fn ident_char(c: char) -> bool {
    is_alnum(c) || c == '_' || c == '-'
}

/// End of the run of identifier characters starting at `i`.
pub open spec fn ident_end(s: Seq<char>, i: int) -> int
    decreases s.len() - i,
{
    if 0 <= i < s.len() && ident_char(s[i]) {
        ident_end(s, i + 1)
    } else {
        i
    }
}

/// End of the run of whitespace starting at `i`.
pub open spec fn ws_end(s: Seq<char>, i: int) -> int
    decreases s.len() - i,
{
    if 0 <= i < s.len() && is_ws(s[i]) {
        ws_end(s, i + 1)
    } else {
        i
    }
}

/// End of the run of non-whitespace starting at `i`.
pub open spec fn word_end(s: Seq<char>, i: int) -> int
    decreases s.len() - i,
{
    if 0 <= i < s.len() && !is_ws(s[i]) {
        word_end(s, i + 1)
    } else {
        i
    }
}

/// First index at or after `i` holding `q` (or the length).
pub open spec fn find_from(s: Seq<char>, i: int, q: char) -> int
    decreases s.len() - i,
{
    if 0 <= i < s.len() && s[i] != q {
        find_from(s, i + 1, q)
    } else {
        i
    }
}

pub proof fn lemma_run_ends(s: Seq<char>, i: int, q: char)
    requires
        0 <= i <= s.len(),
    ensures
        i <= ident_end(s, i) <= s.len(),
        i <= ws_end(s, i) <= s.len(),
        i <= word_end(s, i) <= s.len(),
        i <= find_from(s, i, q) <= s.len(),
    decreases s.len() - i,
{
    if i < s.len() {
        lemma_run_ends(s, i + 1, q);
    }
}

impl AttrModel {
    pub open spec fn set_id(self, id: Seq<char>) -> AttrModel {
        AttrModel { id: Some(id), ..self }
    }

    pub open spec fn add_class(self, c: Seq<char>) -> AttrModel {
        AttrModel {
            classes: match self.classes {
                Some(v) => Some(v.push(c)),
                None => Some(seq![c]),
            },
            ..self
        }
    }

    pub open spec fn add_kv(self, k: Seq<char>, v: Seq<char>) -> AttrModel {
        AttrModel {
            kvs: match self.kvs {
                Some(x) => Some(x.push((k, v))),
                None => Some(seq![(k, v)]),
            },
            ..self
        }
    }

    pub open spec fn empty() -> AttrModel {
        AttrModel { id: None, classes: None, kvs: None }
    }
}

/// The attributes read from the tokens of `s` from index `i` on, added to `m`.
///
/// Tokens are separated by whitespace: `#id` sets the id, `.class` adds a
/// class, `key="v"` / `key='v'` / `key=v` adds a pair, a bare `key` adds a
/// pair with an empty value; any other character is skipped.
pub open spec fn attr_tokens(s: Seq<char>, i: int, m: AttrModel) -> AttrModel
    decreases s.len() - i, 1int,
{
    let j = ws_end(s, i);
    if i < 0 || j < i || j >= s.len() {
        m
    } else {
        attr_token_at(s, j, m)
    }
}

/// One token at index `i` (not whitespace), then the rest.
pub open spec fn attr_token_at(s: Seq<char>, i: int, m: AttrModel) -> AttrModel
    decreases s.len() - i, 0int,
{
    if !(0 <= i < s.len()) {
        m
    } else if s[i] == '#' || s[i] == '.' {
        let j = ident_end(s, i + 1);
        if j <= i || j > s.len() {
            m
        } else {
            let m2 = if j > i + 1 {
                if s[i] == '#' {
                    m.set_id(s.subrange(i + 1, j))
                } else {
                    m.add_class(s.subrange(i + 1, j))
                }
            } else {
                m
            };
            attr_tokens(s, j, m2)
        }
    } else if ident_start(s[i]) {
        let k = ident_end(s, i);
        let key = s.subrange(i, k);
        let k2 = ws_end(s, k);
        if k <= i || k2 < k || k2 > s.len() {
            m
        } else if k2 < s.len() && s[k2] == '=' {
            let k3 = ws_end(s, k2 + 1);
            if k3 <= k2 || k3 > s.len() {
                m
            } else if k3 < s.len() && (s[k3] == '"' || s[k3] == '\'') {
                let e = find_from(s, k3 + 1, s[k3]);
                let next = if e < s.len() { e + 1 } else { e };
                if e <= k3 || next > s.len() {
                    m
                } else {
                    attr_tokens(s, next, m.add_kv(key, s.subrange(k3 + 1, e)))
                }
            } else {
                let e = word_end(s, k3);
                if e < k3 || e > s.len() {
                    m
                } else {
                    attr_tokens(s, e, if e > k3 { m.add_kv(key, s.subrange(k3, e)) } else { m })
                }
            }
        } else {
            attr_tokens(s, k2, m.add_kv(key, Seq::empty()))
        }
    } else {
        attr_tokens(s, i + 1, m)
    }
}

/// The quoting state after reading `s`: nesting depth of `{`/`}` outside
/// quotes, and the open quote character, if any.
pub open spec fn brace_state(s: Seq<char>) -> (int, Option<char>)
    decreases s.len(),
{
    if s.len() == 0 {
        (0, None)
    } else {
        let (d, q) = brace_state(s.drop_last());
        let c = s.last();
        match q {
            Some(qc) => if c == qc { (d, None) } else { (d, q) },
            None => if c == '"' || c == '\'' {
                (d, Some(c))
            } else if c == '{' {
                (d + 1, q)
            } else if c == '}' {
                (d - 1, q)
            } else {
                (d, q)
            },
        }
    }
}

/// Index `k` holds the `}` that closes the opening `{` of `s`.
pub open spec fn closes_at(s: Seq<char>, k: int) -> bool {
    0 <= k < s.len() && s[k] == '}' && brace_state(s.take(k)) == (1int, None::<char>)
}

/// The result of [`parse_attrs`] on the character sequence `s`.
#[verifier::opaque]
pub open spec fn parse_attrs_spec(s: Seq<char>) -> Option<(AttrModel, int)> {
    let t = trim_start(s);
    if t.len() == 0 || t[0] != '{' {
        None
    } else if exists|k: int| closes_at(t, k) {
        let k = choose|k: int| closes_at(t, k) && forall|j: int| 0 <= j < k ==> !closes_at(t, j);
        let inner_start = if t.len() > 1 && t[1] == ':' { 2int } else { 1int };
        Some((attr_tokens(t.subrange(inner_start, k), 0, AttrModel::empty()), k + 1))
    } else {
        None
    }
}

fn is_ident_start(c: char) -> (b: bool)
    ensures
        b == ident_start(c),
{
    is_ascii_alphabetic(c) || c == '_' || c == '-'
}

fn is_ident_char(c: char) -> (b: bool)
    ensures
        b == ident_char(c),
{
    is_ascii_alphanumeric(c) || c == '_' || c == '-'
}

fn scan_ident(s: &[char], from: usize) -> (j: usize)
    requires
        from <= s@.len(),
    ensures
        j == ident_end(s@, from as int),
        from <= j <= s@.len(),
{
    let mut j = from;
    while j < s.len() && is_ident_char(s[j])
        invariant
            from <= j <= s@.len(),
            ident_end(s@, from as int) == ident_end(s@, j as int),
        decreases s@.len() - j,
    {
        j += 1;
    }
    j
}

fn scan_ws(s: &[char], from: usize) -> (j: usize)
    requires
        from <= s@.len(),
    ensures
        j == ws_end(s@, from as int),
        from <= j <= s@.len(),
{
    let mut j = from;
    while j < s.len() && is_whitespace(s[j])
        invariant
            from <= j <= s@.len(),
            ws_end(s@, from as int) == ws_end(s@, j as int),
        decreases s@.len() - j,
    {
        j += 1;
    }
    j
}

fn scan_word(s: &[char], from: usize) -> (j: usize)
    requires
        from <= s@.len(),
    ensures
        j == word_end(s@, from as int),
        from <= j <= s@.len(),
{
    let mut j = from;
    while j < s.len() && !is_whitespace(s[j])
        invariant
            from <= j <= s@.len(),
            word_end(s@, from as int) == word_end(s@, j as int),
        decreases s@.len() - j,
    {
        j += 1;
    }
    j
}

fn scan_to(s: &[char], from: usize, q: char) -> (j: usize)
    requires
        from <= s@.len(),
    ensures
        j == find_from(s@, from as int, q),
        from <= j <= s@.len(),
{
    let mut j = from;
    while j < s.len() && s[j] != q
        invariant
            from <= j <= s@.len(),
            find_from(s@, from as int, q) == find_from(s@, j as int, q),
        decreases s@.len() - j,
    {
        j += 1;
    }
    j
}

/// Working state of the token reader: the attribute parts read so far.
struct AttrAcc {
    id: Option<String>,
    classes: Option<Vec<String>>,
    kvs: Option<Vec<(String, String)>>,
}

impl AttrAcc {
    spec fn model(self) -> AttrModel {
        attr_model(Attributes { id: self.id, classes: self.classes, attributes: self.kvs })
    }
}

/// Push a key-value pair, creating the list if it is still absent.
fn push_attr(acc: &mut AttrAcc, key: String, val: String)
    ensures
        final(acc).model() == old(acc).model().add_kv(key@, val@),
{
    let cur = acc.kvs.take();
    match cur {
        Some(mut v) => {
            v.push((key, val));
            acc.kvs = Some(v);
        },
        None => {
            let mut v: Vec<(String, String)> = Vec::new();
            v.push((key, val));
            acc.kvs = Some(v);
        },
    }
    assert(final(acc).model().kvs =~~= old(acc).model().add_kv(key@, val@).kvs);
}

fn push_class(acc: &mut AttrAcc, class: String)
    ensures
        final(acc).model() == old(acc).model().add_class(class@),
{
    let cur = acc.classes.take();
    match cur {
        Some(mut v) => {
            v.push(class);
            acc.classes = Some(v);
        },
        None => {
            let mut v: Vec<String> = Vec::new();
            v.push(class);
            acc.classes = Some(v);
        },
    }
    assert(final(acc).model().classes =~~= old(acc).model().add_class(class@).classes);
}

/// Parse the tokens inside `{...}`.
fn parse_attr_tokens(s: &[char]) -> (r: Attributes)
    ensures
        attr_model(r) == attr_tokens(s@, 0, AttrModel::empty()),
{
    let mut acc = AttrAcc { id: None, classes: None, kvs: None };
    let mut i: usize = 0;
    assert(acc.model() == AttrModel::empty());
    while i < s.len()
        invariant
            i <= s@.len(),
            attr_tokens(s@, i as int, acc.model()) == attr_tokens(s@, 0, AttrModel::empty()),
        decreases s@.len() - i,
    {
        let ghost i0 = i;
        let ghost m0 = acc.model();
        let t = scan_ws(s, i);
        if t < s.len() {
            assert(attr_tokens(s@, i0 as int, m0) == attr_token_at(s@, t as int, m0));
            i = read_token(s, t, &mut acc);
        } else {
            i = t;
        }
    }
    Attributes { id: acc.id, classes: acc.classes, attributes: acc.kvs }
}

/// Reads the token at `i` into `acc`; returns the index after it.
fn read_token(s: &[char], i: usize, acc: &mut AttrAcc) -> (next: usize)
    requires
        i < s@.len(),
    ensures
        i < next <= s@.len(),
        attr_token_at(s@, i as int, old(acc).model()) == attr_tokens(s@, next as int, final(acc).model()),
{
    let c = s[i];
    if c == '#' || c == '.' {
        let start = i + 1;
        let j = scan_ident(s, start);
        if j > start {
            let name = string_of(s, start, j);
            if c == '#' {
                acc.id = Some(name);
            } else {
                push_class(acc, name);
            }
        }
        j
    } else if is_ident_start(c) {
        let key_start = i;
        let k = scan_ident(s, i);
        assert(ident_end(s@, i as int) == ident_end(s@, i + 1));
        proof {
            lemma_run_ends(s@, i + 1, ' ');
        }
        let key = string_of(s, key_start, k);
        let k2 = scan_ws(s, k);
        if k2 < s.len() && s[k2] == '=' {
            let k3 = scan_ws(s, k2 + 1);
            if k3 < s.len() && (s[k3] == '"' || s[k3] == '\'') {
                let q = s[k3];
                let e = scan_to(s, k3 + 1, q);
                let val = string_of(s, k3 + 1, e);
                push_attr(acc, key, val);
                if e < s.len() { e + 1 } else { e }
            } else {
                let e = scan_word(s, k3);
                if e > k3 {
                    let val = string_of(s, k3, e);
                    push_attr(acc, key, val);
                }
                e
            }
        } else {
            push_attr(acc, key, String::new());
            k2
        }
    } else {
        i + 1
    }
}

/// Index of the `}` closing the `{` at `t[0]`, if there is one.
fn find_close(t: &[char]) -> (r: Option<usize>)
    requires
        t@.len() > 0,
        t@[0] == '{',
    ensures
        match r {
            Some(k) => closes_at(t@, k as int) && forall|j: int| 0 <= j < k ==> !closes_at(t@, j),
            None => forall|j: int| !closes_at(t@, j),
        },
{
    let mut depth: usize = 0;
    let mut in_string: Option<char> = None;
    let mut i: usize = 0;
    while i < t.len()
        invariant
            i <= t@.len(),
            t@.len() > 0,
            t@[0] == '{',
            (depth as int, in_string) == brace_state(t@.take(i as int)),
            depth <= i,
            i > 0 ==> depth >= 1,
            forall|j: int| 0 <= j < i ==> !closes_at(t@, j),
        decreases t@.len() - i,
    {
        let c = t[i];
        proof {
            assert(t@.take(i + 1).drop_last() =~= t@.take(i as int));
            assert(t@.take(i + 1).last() == c);
            if i == 0 {
                assert(t@.take(0) =~= Seq::<char>::empty());
            }
        }
        match in_string {
            Some(q) => {
                if c == q {
                    in_string = None;
                }
            },
            None => {
                if c == '"' || c == '\'' {
                    in_string = Some(c);
                } else if c == '{' {
                    depth = depth + 1;
                } else if c == '}' {
                    if depth == 1 {
                        assert(closes_at(t@, i as int));
                        return Some(i);
                    }
                    depth = depth - 1;
                }
            },
        }
        i += 1;
    }
    None
}

/// Parse a Kramdown attribute block starting at the opening `{`.
///
/// Returns the attributes and the number of characters (of the string with
/// leading whitespace removed) up to and including the closing `}`, or
/// `None` when the text does not start with `{` or the brace is never
/// closed.
pub fn parse_attrs(s: &str) -> (r: Option<(Attributes, usize)>)
    ensures
        match (r, parse_attrs_spec(s@)) {
            (Some((a, n)), Some((m, k))) => attr_model(a) == m && n == k,
            (None, None) => true,
            _ => false,
        },
{
    let all = str_to_chars(s);
    parse_attrs_chars(&all)
}

/// [`parse_attrs`] on the characters of the text.
pub fn parse_attrs_chars(all: &[char]) -> (r: Option<(Attributes, usize)>)
    ensures
        match (r, parse_attrs_spec(all@)) {
            (Some((a, n)), Some((m, k))) => attr_model(a) == m && n == k,
            (None, None) => true,
            _ => false,
        },
{
    reveal(parse_attrs_spec);
    let start = skip_ws(all, 0, all.len());
    assert(all@.subrange(0, all@.len() as int) =~= all@);
    let t = slice_vec(all, start, all.len());
    assert(t@ =~= trim_start(all@));
    if t.len() == 0 || t[0] != '{' {
        return None;
    }
    match find_close(&t) {
        None => None,
        Some(k) => {
            proof {
                let chosen = choose|k: int| closes_at(t@, k) && forall|j: int| 0 <= j < k ==> !closes_at(t@, j);
                assert(closes_at(t@, chosen) && forall|j: int| 0 <= j < chosen ==> !closes_at(t@, j));
                if chosen < k {
                    assert(!closes_at(t@, chosen));
                }
                if chosen > k {
                    assert(!closes_at(t@, k as int));
                }
            }
            let inner_start: usize = if t.len() > 1 && t[1] == ':' { 2 } else { 1 };
            assert(inner_start <= k) by {
                if inner_start == 2 {
                    assert(t@[1] == ':');
                    assert(t@[k as int] == '}');
                }
            }
            let inner: Vec<char> = slice_vec(&t, inner_start, k);
            let attrs = parse_attr_tokens(&inner);
            Some((attrs, k + 1))
        },
    }
}

/// A vector holding `s[from..to]`.
pub fn slice_vec(s: &[char], from: usize, to: usize) -> (v: Vec<char>)
    requires
        from <= to <= s@.len(),
    ensures
        v@ == s@.subrange(from as int, to as int),
{
    let mut v: Vec<char> = Vec::new();
    let mut k = from;
    while k < to
        invariant
            from <= k <= to <= s@.len(),
            v@ == s@.subrange(from as int, k as int),
        decreases to - k,
    {
        v.push(s[k]);
        k += 1;
        assert(v@ =~= s@.subrange(from as int, k as int));
    }
    v
}

} // verus!
