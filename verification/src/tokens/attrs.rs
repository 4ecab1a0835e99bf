//! Kramdown block attributes (`{:#id .class key="val"}`) and their HTML
//! attribute rendering.

use crate::text::{push_char, push_str, str_to_chars};
use vstd::prelude::*;

verus! {

/// Parsed Kramdown block attributes (`{:#id .class key="val"}`).
#[derive(Debug, Clone, PartialEq, Eq)]
pub struct Attributes {
    /// HTML `id` attribute.
    pub id: Option<String>,
    /// CSS class list.
    pub classes: Option<Vec<String>>,
    /// Arbitrary key/value attributes.
    pub attributes: Option<Vec<(String, String)>>,
}

impl Default for Attributes {
    fn default() -> (r: Self)
        ensures
            r.id is None,
            r.classes is None,
            r.attributes is None,
    {
        Attributes { id: None, classes: None, attributes: None }
    }
}

/// The escape of one character in an attribute value.
pub open spec fn esc_attr_char(c: char) -> Seq<char> {
    if c == '&' {
        "&amp;"@
    } else if c == '"' {
        "&quot;"@
    } else if c == '<' {
        "&lt;"@
    } else if c == '>' {
        "&gt;"@
    } else {
        seq![c]
    }
}

/// `s` with `&`, `"`, `<`, `>` replaced by their entities.
pub open spec fn escape_attr_spec(s: Seq<char>) -> Seq<char>
    decreases s.len(),
{
    if s.len() == 0 {
        Seq::empty()
    } else {
        escape_attr_spec(s.drop_last()) + esc_attr_char(s.last())
    }
}

/// The elements of `parts` separated by `sep`.
pub open spec fn join(parts: Seq<Seq<char>>, sep: Seq<char>) -> Seq<char>
    decreases parts.len(),
{
    if parts.len() == 0 {
        Seq::empty()
    } else if parts.len() == 1 {
        parts[0]
    } else {
        join(parts.drop_last(), sep) + sep + parts.last()
    }
}

/// The views of a sequence of strings.
pub open spec fn views(v: Seq<String>) -> Seq<Seq<char>> {
    v.map_values(|x: String| x@)
}

/// `name="escaped value"`, where `name` is already escaped.
pub open spec fn quoted(name: Seq<char>, value: Seq<char>) -> Seq<char> {
    name + seq!['=', '"'] + escape_attr_spec(value) + seq!['"']
}

/// The parts that the key/value pairs contribute: `key="value"` for each
/// pair, in order.
pub open spec fn kv_parts(kvs: Seq<(String, String)>) -> Seq<Seq<char>>
    decreases kvs.len(),
{
    if kvs.len() == 0 {
        Seq::empty()
    } else {
        let (k, v) = kvs.last();
        kv_parts(kvs.drop_last()) + seq![quoted(escape_attr_spec(k@), v@)]
    }
}

/// The key/value pairs of `a` (none when the list is absent).
pub open spec fn attr_list(a: Attributes) -> Seq<(String, String)> {
    match a.attributes {
        Some(v) => v@,
        None => Seq::empty(),
    }
}

/// The space-separated parts of the HTML attribute string of `a`.
pub open spec fn attr_parts(a: Attributes) -> Seq<Seq<char>> {
    let id_parts = match a.id {
        Some(id) => seq![quoted("id"@, id@)],
        None => Seq::empty(),
    };
    let class_parts = match a.classes {
        Some(cs) => seq![quoted("class"@, join(views(cs@), seq![' ']))],
        None => Seq::empty(),
    };
    id_parts + class_parts + kv_parts(attr_list(a))
}

/// The HTML attribute string of `a`.
pub open spec fn attr_string(a: Attributes) -> Seq<char> {
    join(attr_parts(a), seq![' '])
}

impl Attributes {
    /// Render the attributes as a space-delimited HTML attribute string.
    ///
    /// Special characters (`&`, `"`, `<`, `>`) are escaped.  The id comes
    /// first, then the classes, then each key/value pair once, in order.
    pub fn to_html_attr_string(&self) -> (r: String)
        ensures
            r@ == attr_string(*self),
    {
        let mut out = String::new();
        let ghost mut parts: Seq<Seq<char>> = Seq::empty();
        let mut first = true;
        if let Some(id) = &self.id {
            let mut p = String::new();
            push_str(&mut p, "id");
            push_quoted_value(&mut p, id.as_str());
            assert(p@ =~= quoted("id"@, id@));
            append_part(&mut out, Ghost(parts), first, &p);
            proof {
                parts = parts.push(p@);
            }
            first = false;
        }
        if let Some(classes) = &self.classes {
            let joined = join_strings(classes, " ");
            proof {
                reveal_strlit(" ");
            }
            let mut p = String::new();
            push_str(&mut p, "class");
            push_quoted_value(&mut p, joined.as_str());
            assert(" "@ =~= seq![' ']);
            assert(p@ =~= quoted("class"@, join(views(classes@), seq![' '])));
            append_part(&mut out, Ghost(parts), first, &p);
            proof {
                parts = parts.push(p@);
            }
            first = false;
        }
        let ghost head = parts;
        proof {
            let a = *self;
            let id_parts = match a.id {
                Some(id) => seq![quoted("id"@, id@)],
                None => Seq::<Seq<char>>::empty(),
            };
            let class_parts = match a.classes {
                Some(cs) => seq![quoted("class"@, join(views(cs@), seq![' ']))],
                None => Seq::<Seq<char>>::empty(),
            };
            assert(head =~= id_parts + class_parts);
        }
        let none: Vec<(String, String)> = Vec::new();
        let kvs: &Vec<(String, String)> = match &self.attributes {
            Some(v) => v,
            None => &none,
        };
        let mut i: usize = 0;
        while i < kvs.len()
            invariant
                i <= kvs@.len(),
                kvs@ == attr_list(*self),
                first == (parts.len() == 0),
                parts == head + kv_parts(kvs@.take(i as int)),
                out@ == join(parts, seq![' ']),
            decreases kvs@.len() - i,
        {
            let (k, v) = &kvs[i];
            let ghost before = parts;
            let mut p = String::new();
            push_escaped_attr(&mut p, k.as_str());
            push_quoted_value(&mut p, v.as_str());
            append_part(&mut out, Ghost(parts), first, &p);
            proof {
                parts = parts.push(p@);
                assert(kvs@.take(i + 1).drop_last() =~= kvs@.take(i as int));
                assert(kvs@.take(i + 1).last() == kvs@[i as int]);
                let tail = kv_parts(kvs@.take(i + 1));
                assert(tail == kv_parts(kvs@.take(i as int)) + seq![quoted(escape_attr_spec(k@), v@)]);
            }
            first = false;
            i = i + 1;
            assert(parts =~= head + kv_parts(kvs@.take(i as int)));
        }
        assert(kvs@.take(kvs@.len() as int) =~= kvs@);
        assert(parts =~= attr_parts(*self));
        out
    }
}

/// Whether the characters of `a` are those of `b`.
pub fn str_is(a: &str, b: &str) -> (r: bool)
    ensures
        r == (a@ == b@),
{
    let x = str_to_chars(a);
    let y = str_to_chars(b);
    if x.len() != y.len() {
        return false;
    }
    let mut i: usize = 0;
    while i < x.len()
        invariant
            i <= x@.len() == y@.len(),
            x@ == a@,
            y@ == b@,
            forall|k: int| 0 <= k < i ==> x@[k] == y@[k],
        decreases x@.len() - i,
    {
        if x[i] != y[i] {
            assert(x@[i as int] != y@[i as int]);
            return false;
        }
        i += 1;
    }
    assert(x@ =~= y@);
    true
}

/// Appends `="escaped value"` to `p`.
fn push_quoted_value(p: &mut String, value: &str)
    ensures
        final(p)@ == old(p)@ + seq!['=', '"'] + escape_attr_spec(value@) + seq!['"'],
{
    push_char(p, '=');
    push_char(p, '"');
    push_escaped_attr(p, value);
    push_char(p, '"');
}

/// Appends one more part to a space-separated list of `n` parts.
fn append_part(out: &mut String, parts: Ghost<Seq<Seq<char>>>, first: bool, p: &String)
    requires
        first == (parts@.len() == 0),
        old(out)@ == join(parts@, seq![' ']),
    ensures
        final(out)@ == join(parts@.push(p@), seq![' ']),
{
    assert(parts@.push(p@).drop_last() =~= parts@);
    if first {
        push_str(out, p.as_str());
        assert(old(out)@ =~= Seq::<char>::empty());
        assert(final(out)@ =~= p@);
    } else {
        push_char(out, ' ');
        push_str(out, p.as_str());
    }
}

/// The strings of `v` joined by `sep`.
pub fn join_strings(v: &Vec<String>, sep: &str) -> (r: String)
    ensures
        r@ == join(views(v@), sep@),
{
    let mut out = String::new();
    let mut i: usize = 0;
    while i < v.len()
        invariant
            i <= v@.len(),
            out@ == join(views(v@.take(i as int)), sep@),
        decreases v@.len() - i,
    {
        let ghost prev = views(v@.take(i as int));
        if i > 0 {
            push_str(&mut out, sep);
        }
        push_str(&mut out, v[i].as_str());
        i = i + 1;
        proof {
            let cur = views(v@.take(i as int));
            assert(cur.drop_last() =~= prev);
            assert(cur.last() == v@[i - 1]@);
            if i == 1 {
                assert(prev =~= Seq::<Seq<char>>::empty());
            }
        }
    }
    assert(v@.take(v@.len() as int) =~= v@);
    out
}

/// Appends `s` with `&`, `"`, `<`, `>` escaped.
pub fn push_escaped_attr(out: &mut String, s: &str)
    ensures
        final(out)@ == old(out)@ + escape_attr_spec(s@),
{
    let cs = str_to_chars(s);
    let mut i: usize = 0;
    while i < cs.len()
        invariant
            i <= cs@.len(),
            cs@ == s@,
            out@ == old(out)@ + escape_attr_spec(cs@.take(i as int)),
        decreases cs@.len() - i,
    {
        let c = cs[i];
        if c == '&' {
            push_str(out, "&amp;");
        } else if c == '"' {
            push_str(out, "&quot;");
        } else if c == '<' {
            push_str(out, "&lt;");
        } else if c == '>' {
            push_str(out, "&gt;");
        } else {
            push_char(out, c);
        }
        proof {
            assert(cs@.take(i + 1).drop_last() =~= cs@.take(i as int));
            assert(cs@.take(i + 1).last() == c);
        }
        i = i + 1;
        assert(out@ =~= old(out)@ + escape_attr_spec(cs@.take(i as int)));
    }
    assert(cs@.take(cs@.len() as int) =~= cs@);
}

/// `s` with `&`, `"`, `<`, `>` replaced by their entities.
pub fn escape_attr(s: &str) -> (r: String)
    ensures
        r@ == escape_attr_spec(s@),
{
    let mut out = String::new();
    push_escaped_attr(&mut out, s);
    out
}


proof fn lemma_escape_attr_append(a: Seq<char>, b: Seq<char>)
    ensures
        escape_attr_spec(a + b) == escape_attr_spec(a) + escape_attr_spec(b),
    decreases b.len(),
{
    if b.len() > 0 {
        assert((a + b).drop_last() =~= a + b.drop_last());
        assert((a + b).last() == b.last());
        lemma_escape_attr_append(a, b.drop_last());
        assert(escape_attr_spec(a) + escape_attr_spec(b.drop_last()) + esc_attr_char(b.last()) =~= escape_attr_spec(a)
            + escape_attr_spec(b));
    }
}

/// Adding a class at the end of a non-empty class list adds a space and
/// the (escaped) class at the end of the `class` attribute's value, and
/// changes no other part of the attribute string: the classes of the
/// value are separated by single spaces.
pub proof fn law_class_added(a: Attributes, a2: Attributes, c: String)
    requires
        a2.id == a.id,
        a2.attributes == a.attributes,
        a.classes is Some,
        a2.classes is Some,
        a.classes->0@.len() > 0,
        a2.classes->0@ == a.classes->0@.push(c),
    ensures
        ({
            let i = if a.id is Some { 1int } else { 0int };
            let p = attr_parts(a)[i];
            &&& i < attr_parts(a).len()
            &&& attr_parts(a2) == attr_parts(a).update(i, p.drop_last() + seq![' '] + escape_attr_spec(c@) + seq!['"'])
        }),
{
    let cs = a.classes->0@;
    let cs2 = a2.classes->0@;
    let vs = views(cs);
    let vs2 = views(cs2);
    assert(vs2.drop_last() =~= vs);
    assert(vs2.last() == c@);
    let j = join(vs, seq![' ']);
    assert(join(vs2, seq![' ']) == j + seq![' '] + c@);
    lemma_escape_attr_append(j + seq![' '], c@);
    lemma_escape_attr_append(j, seq![' ']);
    assert(escape_attr_spec(seq![' ']) =~= seq![' ']) by {
        let sp = seq![' '];
        assert(sp.drop_last() =~= Seq::<char>::empty());
        assert(sp.last() == ' ');
        assert(escape_attr_spec(Seq::<char>::empty()) == Seq::<char>::empty());
        assert(esc_attr_char(' ') == seq![' ']);
        assert(escape_attr_spec(sp) == escape_attr_spec(sp.drop_last()) + esc_attr_char(sp.last()));
    }
    let p = quoted("class"@, j);
    let p2 = quoted("class"@, join(vs2, seq![' ']));
    assert(p2 =~= p.drop_last() + seq![' '] + escape_attr_spec(c@) + seq!['"']);
    let i = if a.id is Some { 1int } else { 0int };
    assert(attr_list(a2) == attr_list(a));
    assert(attr_parts(a)[i] == p);
    assert(attr_parts(a2) =~= attr_parts(a).update(i, p2));
}

} // verus!
