//! YAML front matter: a `---` block at the top of a Markdown document.
//!
//! The document (after leading whitespace) must start with `---` and a line
//! break; the YAML runs up to the first `\n---`; the Markdown body is what
//! follows, with leading whitespace removed.  The YAML itself is handed to
//! `serde_yaml`.

use crate::text::{lead_ws, lemma_lead_ws_bound, skip_ws, starts_with, str_to_chars, string_of, trim_start, utf8_len};
use crate::parsers::inline::opt_view;
use vstd::prelude::*;

verus! {

/// A YAML value (a JSON-compatible value tree).
#[verifier::external_type_specification]
#[verifier::external_body]
pub struct ExJsonValue(serde_json::Value);

/// An error of the YAML parser.
#[verifier::external_type_specification]
#[verifier::external_body]
pub struct ExYamlError(serde_yaml::Error);

/// What `serde_yaml::from_str` gives for a text read as YAML for an
/// optional JSON-compatible value.
pub uninterp spec fn yaml_result(s: Seq<char>) -> Result<Option<serde_json::Value>, serde_yaml::Error>;

/// Whether `serde_yaml` accepts the text as YAML for an optional value.
pub open spec fn yaml_accepts(s: Seq<char>) -> bool {
    yaml_result(s) is Ok
}

/// The front matter value of the YAML text `y`, when it is accepted.
pub open spec fn yaml_value(y: Seq<char>) -> Option<serde_json::Value> {
    match yaml_result(y) {
        Ok(v) => v,
        Err(_) => None,
    }
}

/// `serde_yaml::from_str` into an optional JSON-compatible value (`None`
/// for an empty or `null` document).  The outcome is a function of the
/// text alone; what it is for a given text is left unsaid.
#[verifier::external_body]
fn yaml_from_str(s: &str) -> (r: Result<Option<serde_json::Value>, serde_yaml::Error>)
    ensures
        r == yaml_result(s@),
{
    serde_yaml::from_str::<Option<serde_json::Value>>(s)
}

/// The `Display` text of a YAML error.
pub uninterp spec fn yaml_error_msg(e: serde_yaml::Error) -> Seq<char>;

/// The `Display` text of a YAML error: a function of the error alone; what
/// it says is left unsaid.
#[verifier::external_body]
fn yaml_error_text(e: &serde_yaml::Error) -> (r: String)
    ensures
        r@ == yaml_error_msg(*e),
{
    format!("{}", e)
}

/// Parsed Markdown content that may include YAML front matter: the
/// Markdown body without the front matter block, and the front matter's
/// value when there was one.
#[derive(Debug)]
pub struct ParseResult<T> {
    pure_markdown_content: String,
    yaml_data: Option<T>,
}

impl<T> ParseResult<T> {
    /// The Markdown body.
    pub closed spec fn body(&self) -> Seq<char> {
        self.pure_markdown_content@
    }

    /// The front matter's value.
    pub closed spec fn data(&self) -> Option<T> {
        self.yaml_data
    }

    /// The deserialized YAML front matter, if one was present.
    pub fn yaml_data(&self) -> (r: Option<&T>)
        ensures
            match (r, self.data()) {
                (Some(x), Some(y)) => *x == y,
                (None, None) => true,
                _ => false,
            },
    {
        match &self.yaml_data {
            Some(x) => Some(x),
            None => None,
        }
    }

    /// The Markdown body with the YAML front matter removed.
    pub fn pure_markdown_content(&self) -> (r: &str)
        ensures
            r@ == self.body(),
    {
        self.pure_markdown_content.as_str()
    }

    /// The owned Markdown body and front matter value.
    pub fn into_parts(self) -> (r: (String, Option<T>))
        ensures
            r.0@ == self.body(),
            r.1 == self.data(),
    {
        (self.pure_markdown_content, self.yaml_data)
    }
}

/// `---` and a line feed.
pub open spec fn fence_lf() -> Seq<char> {
    seq!['-', '-', '-', '\n']
}

/// `---` and a carriage return and line feed.
pub open spec fn fence_crlf() -> Seq<char> {
    seq!['-', '-', '-', '\r', '\n']
}

/// The text starts a front matter block.
pub open spec fn has_start(t: Seq<char>) -> bool {
    starts_with(t, fence_lf()) || starts_with(t, fence_crlf())
}

/// Byte length of the opening fence (assumed CRLF only when it is one).
pub open spec fn start_len(t: Seq<char>) -> int {
    if starts_with(t, fence_crlf()) {
        5
    } else {
        4
    }
}

/// `\n---` starts at `j`.
pub open spec fn nl_dashes_at(s: Seq<char>, j: int) -> bool {
    0 <= j && j + 4 <= s.len() && s[j] == '\n' && s[j + 1] == '-' && s[j + 2] == '-' && s[j + 3] == '-'
}

/// The first index at or after `j` where `\n---` starts, or -1.
pub open spec fn find_nl_dashes(s: Seq<char>, j: int) -> int
    decreases s.len() - j,
{
    if j < 0 || j + 4 > s.len() {
        -1
    } else if nl_dashes_at(s, j) {
        j
    } else {
        find_nl_dashes(s, j + 1)
    }
}

pub proof fn lemma_find_nl_dashes(s: Seq<char>, j: int)
    requires
        0 <= j,
    ensures
        find_nl_dashes(s, j) == -1 || (j <= find_nl_dashes(s, j) && nl_dashes_at(s, find_nl_dashes(s, j))),
    decreases s.len() - j,
{
    if j + 4 <= s.len() && !nl_dashes_at(s, j) {
        lemma_find_nl_dashes(s, j + 1);
    }
}

/// The front matter of a document: its YAML text and the Markdown body
/// after it, or `None` when the document has no (closed) front matter.
pub open spec fn frontmatter_split(content: Seq<char>) -> Option<(Seq<char>, Seq<char>)> {
    let t = trim_start(content);
    if !has_start(t) {
        None
    } else {
        let rest = t.skip(start_len(t));
        let j = find_nl_dashes(rest, 0);
        if j < 0 {
            None
        } else {
            Some((rest.take(j), trim_start(rest.skip(j + 4))))
        }
    }
}

/// The message of a front matter that is not valid YAML begins with this.
pub open spec fn error_prefix() -> Seq<char> {
    "Failed to parse YAML front matter: "@
}

/// Split off the front matter: its YAML text and the body after it, or
/// `None` when there is none.
pub fn split_frontmatter(content: &str) -> (r: Option<(String, String)>)
    ensures
        match (r, frontmatter_split(content@)) {
            (Some((y, b)), Some((y2, b2))) => y@ == y2 && b@ == b2,
            (None, None) => true,
            _ => false,
        },
{
    let all = str_to_chars(content);
    let n = all.len();
    let a = skip_ws(&all, 0, n);
    assert(all@.subrange(0, n as int) =~= all@);
    let t = crate::parsers::atters::slice_vec(&all, a, n);
    assert(t@ =~= trim_start(content@));
    let lf = t.len() >= 4 && t[0] == '-' && t[1] == '-' && t[2] == '-' && t[3] == '\n';
    let crlf = t.len() >= 5 && t[0] == '-' && t[1] == '-' && t[2] == '-' && t[3] == '\r' && t[4] == '\n';
    proof {
        let p = fence_crlf();
        let q = fence_lf();
        if starts_with(t@, p) {
            assert(t@[0] == p[0] && t@[1] == p[1] && t@[2] == p[2] && t@[3] == p[3] && t@[4] == p[4]);
        }
        if starts_with(t@, q) {
            assert(t@[0] == q[0] && t@[1] == q[1] && t@[2] == q[2] && t@[3] == q[3]);
        }
        assert(crlf == starts_with(t@, p));
        assert(lf == starts_with(t@, q));
    }
    if !(lf || crlf) {
        return None;
    }
    let off: usize = if crlf { 5 } else { 4 };
    let rest = crate::parsers::atters::slice_vec(&t, off, t.len());
    assert(rest@ =~= t@.skip(off as int));
    let m = rest.len();
    let mut j: usize = 0;
    proof {
        lemma_find_nl_dashes(rest@, 0);
        assert(start_len(t@) == off);
        assert(has_start(t@));
    }
    while j < m && m - j >= 4
        invariant
            j <= m == rest@.len(),
            start_len(t@) == off,
            has_start(t@),
            rest@ == t@.skip(off as int),
            t@ == trim_start(content@),
            find_nl_dashes(rest@, 0) == find_nl_dashes(rest@, j as int),
        decreases m - j,
    {
        if rest[j] == '\n' && rest[j + 1] == '-' && rest[j + 2] == '-' && rest[j + 3] == '-' {
            assert(nl_dashes_at(rest@, j as int));
            assert(find_nl_dashes(rest@, j as int) == j);
            assert(start_len(t@) == off);
            assert(has_start(t@));
            let yaml = string_of(&rest, 0, j);
            let b = skip_ws(&rest, j + 4, m);
            let body = string_of(&rest, b, m);
            assert(rest@.subrange(0, j as int) =~= rest@.take(j as int));
            assert(rest@.subrange(b as int, m as int) =~= trim_start(rest@.skip(j + 4)));
            return Some((yaml, body));
        }
        j += 1;
    }
    None
}

/// Parse a Markdown document with optional YAML front matter.  Without a
/// (closed) front matter block, the body is the whole text and there is
/// no value; with one, the body is what follows it (leading whitespace
/// removed) and the YAML is parsed, an error becoming a message that
/// starts with `Failed to parse YAML front matter: `.
pub fn parse_markdown_frontmatter(content: &str) -> (r: Result<ParseResult<serde_json::Value>, String>)
    ensures
        match frontmatter_split(content@) {
            None => r is Ok && r->Ok_0.body() == content@ && r->Ok_0.data() is None,
            Some((y, b)) => (r is Ok <==> yaml_accepts(y)) && (r is Ok ==> r->Ok_0.body() == b && r->Ok_0.data()
                == yaml_value(y)) && (r is Err ==> r->Err_0@ == error_prefix() + yaml_error_msg(yaml_result(y)->Err_0)),
        },
{
    match split_frontmatter(content) {
        None => {
            let body = String::from_str(content);
            Ok(ParseResult { pure_markdown_content: body, yaml_data: None })
        },
        Some((yaml, body)) => frontmatter_outcome(body, yaml_from_str(yaml.as_str())),
    }
}

/// The parse of a document whose front matter block was split off, leaving
/// `body`, and whose YAML `serde_yaml` read as `parsed`: the body and the
/// value, or an error message that starts with
/// `Failed to parse YAML front matter: `.
pub fn frontmatter_outcome(
    body: String,
    parsed: Result<Option<serde_json::Value>, serde_yaml::Error>,
) -> (r: Result<ParseResult<serde_json::Value>, String>)
    ensures
        match parsed {
            Ok(d) => r is Ok && r->Ok_0.body() == body@ && r->Ok_0.data() == d,
            Err(e) => r is Err && r->Err_0@ == error_prefix() + yaml_error_msg(e),
        },
{
    match parsed {
        Ok(data) => Ok(ParseResult { pure_markdown_content: body, yaml_data: data }),
        Err(e) => {
            let mut msg = String::from_str("Failed to parse YAML front matter: ");
            let text = yaml_error_text(&e);
            crate::text::push_str(&mut msg, text.as_str());
            proof {
                reveal_strlit("Failed to parse YAML front matter: ");
            }
            assert(msg@ == error_prefix() + yaml_error_msg(e));
            Err(msg)
        },
    }
}

/// The JSON text that `serde_json::to_string` gives for a value.
pub uninterp spec fn json_of(v: serde_json::Value) -> Seq<char>;

/// The JSON text of a value (`serde_json::to_string`, which does not fail
/// on a `Value`; empty should it fail).  The text is a function of the
/// value alone; what it is for a given value is left unsaid.
#[verifier::external_body]
fn json_text(v: &serde_json::Value) -> (r: String)
    ensures
        r@ == json_of(*v),
{
    serde_json::to_string(v).unwrap_or_default()
}

/// A front matter result whose value is given as JSON text.
#[derive(Debug)]
pub struct ParseResultJs {
    /// The Markdown body with the YAML front matter removed.
    pub pure_markdown_content: String,
    /// The front matter value as JSON text, or `None`.
    pub yaml_data: Option<String>,
}

/// [`parse_markdown_frontmatter`] with the front matter value turned into
/// JSON text.
pub fn parse_markdown_frontmatter_js(content: String) -> (r: Result<ParseResultJs, String>)
    ensures
        match frontmatter_split(content@) {
            None => r is Ok && r->Ok_0.pure_markdown_content@ == content@ && r->Ok_0.yaml_data is None,
            Some((y, b)) => (r is Ok <==> yaml_accepts(y)) && (r is Ok ==> r->Ok_0.pure_markdown_content@ == b
                && opt_view(r->Ok_0.yaml_data) == match yaml_value(y) {
                Some(v) => Some(json_of(v)),
                None => None,
            }) && (r is Err ==> r->Err_0@ == error_prefix() + yaml_error_msg(yaml_result(y)->Err_0)),
        },
{
    match parse_markdown_frontmatter(content.as_str()) {
        Err(e) => Err(e),
        Ok(result) => {
            let (body, data) = result.into_parts();
            let yaml_data = match data {
                Some(v) => Some(json_text(&v)),
                None => None,
            };
            Ok(ParseResultJs { pure_markdown_content: body, yaml_data })
        },
    }
}

} // verus!
