use peisar::frontmatter::{frontmatter_outcome, parse_markdown_frontmatter, parse_markdown_frontmatter_js, split_frontmatter};

fn check_title_author(v: &serde_json::Value) {
    let obj = v.as_object().expect("front matter should be a mapping");
    assert_eq!(obj.len(), 2);
    assert_eq!(v["title"], "Hello");
    assert_eq!(v["author"], "world");
}

#[test]
fn parses_frontmatter_and_strips_it_from_markdown() {
    let content = "---\ntitle: Hello\nauthor: world\n---\n# Heading\n\nThis is body text.\n";

    let result = parse_markdown_frontmatter(content).unwrap();

    check_title_author(result.yaml_data().expect("front matter expected"));
    assert_eq!(result.pure_markdown_content(), "# Heading\n\nThis is body text.\n");
}

#[test]
fn keeps_markdown_when_frontmatter_is_absent() {
    let content = "# Heading\n\nThis is body text.\n";

    let result = parse_markdown_frontmatter(content).unwrap();

    assert!(result.yaml_data().is_none());
    assert_eq!(result.pure_markdown_content(), content);
}

#[test]
fn accepts_leading_whitespace_and_crlf_frontmatter() {
    let content = "\r\n---\r\ntitle: Hello\r\nauthor: world\r\n---\r\n\r\nBody text\n";

    let result = parse_markdown_frontmatter(content).unwrap();

    check_title_author(result.yaml_data().expect("front matter expected"));
    assert_eq!(result.pure_markdown_content(), "Body text\n");
}

#[test]
fn invalid_yaml_is_an_error_with_prefix() {
    let content = "---\ntitle: [unclosed\n---\nBody\n";
    let err = parse_markdown_frontmatter(content).unwrap_err();
    assert!(err.starts_with("Failed to parse YAML front matter: "));
    assert!(err.len() > "Failed to parse YAML front matter: ".len());
}

#[test]
fn unclosed_frontmatter_keeps_whole_text() {
    let content = "---\ntitle: Hello\nno closing fence\n";
    let result = parse_markdown_frontmatter(content).unwrap();
    assert!(result.yaml_data().is_none());
    assert_eq!(result.pure_markdown_content(), content);
}

#[test]
fn empty_frontmatter_gives_no_value() {
    let content = "---\n\n---\nBody\n";
    let result = parse_markdown_frontmatter(content).unwrap();
    assert!(result.yaml_data().is_none());
    assert_eq!(result.pure_markdown_content(), "Body\n");
}

#[test]
fn split_returns_yaml_and_body() {
    let (yaml, body) = split_frontmatter("  ---\na: 1\n---\n\n  text").unwrap();
    assert_eq!(yaml, "a: 1");
    assert_eq!(body, "text");
    assert!(split_frontmatter("no front matter").is_none());
}

#[test]
fn into_parts_returns_body_and_value() {
    let result = parse_markdown_frontmatter("---\nx: 2\n---\nrest").unwrap();
    let (body, value) = result.into_parts();
    assert_eq!(body, "rest");
    assert_eq!(value.unwrap()["x"], 2);
}

#[test]
fn short_texts_come_back_whole() {
    for text in ["", "ab", "# H", "abc\u{20ac}def"] {
        let r = parse_markdown_frontmatter(text).unwrap();
        assert_eq!(r.pure_markdown_content(), text);
        assert!(r.yaml_data().is_none());
    }
}

#[test]
fn outcome_keeps_body_and_value() {
    let v: serde_json::Value = serde_json::from_str("{\"title\":\"Hi\"}").unwrap();
    let r = frontmatter_outcome("# Body\n".to_string(), Ok(Some(v.clone()))).unwrap();
    assert_eq!(r.pure_markdown_content(), "# Body\n");
    assert_eq!(r.yaml_data(), Some(&v));
    let empty = frontmatter_outcome("x".to_string(), Ok(None)).unwrap();
    assert_eq!(empty.yaml_data(), None);
}

#[test]
fn outcome_turns_a_yaml_error_into_a_message() {
    let e = serde_yaml::from_str::<Option<serde_json::Value>>("a: [").unwrap_err();
    let expected = format!("Failed to parse YAML front matter: {}", e);
    let r = frontmatter_outcome("x".to_string(), Err(e));
    assert_eq!(r.unwrap_err(), expected);
}

#[test]
fn js_result_gives_the_value_as_json_text() {
    let r = parse_markdown_frontmatter_js("---\na: 1\nb: [x]\n---\n# Body\n".to_string()).unwrap();
    assert_eq!(r.pure_markdown_content, "# Body\n");
    assert_eq!(r.yaml_data.as_deref(), Some("{\"a\":1,\"b\":[\"x\"]}"));
    let none = parse_markdown_frontmatter_js("no front matter here".to_string()).unwrap();
    assert_eq!(none.yaml_data, None);
    assert_eq!(none.pure_markdown_content, "no front matter here");
}
