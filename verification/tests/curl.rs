use pluely::curl::{parse_args, parse_curl, tokenize};
use pluely::llm::LlmError;

fn words(s: &str) -> Vec<String> {
    tokenize(s).unwrap()
}

fn header(parsed: &pluely::curl::ParsedCurl, name: &str) -> String {
    parsed.headers.get(name).unwrap().clone()
}

#[test]
fn quoting_makes_no_difference() {
    for line in ["-H a:b", "-H 'a:b'", "-H \"a:b\"", "-H a\\:b", "-H 'a:'\"b\""] {
        assert_eq!(words(line), vec!["-H".to_string(), "a:b".to_string()]);
    }
}

#[test]
fn quotes_keep_white_space_and_backslashes() {
    assert_eq!(words(r"'a \ b'"), vec![r"a \ b".to_string()]);
    assert_eq!(words(r#""a \" \\ b""#), vec![r#"a " \ b"#.to_string()]);
    assert_eq!(words("a\\ b"), vec!["a b".to_string()]);
}

#[test]
fn a_line_continues_behind_a_backslash() {
    assert_eq!(
        words("curl \\\n  -X \\\n GET\u{a0}x"),
        vec!["curl".to_string(), "-X".to_string(), "GET".to_string(), "x".to_string()]
    );
    assert_eq!(words("a\\\nb"), vec!["ab".to_string()]);
    assert_eq!(words("\"a\\\nb\""), vec!["a\nb".to_string()]);
}

#[test]
fn empty_words_do_not_count() {
    assert!(words("  '' \"\"  ").is_empty());
    assert_eq!(words("a''b"), vec!["ab".to_string()]);
    assert_eq!(words("a\\"), vec!["a".to_string()]);
}

#[test]
fn joined_lines_have_the_words_of_both() {
    let (a, b) = ("x 'y z'", "\"w\" v");
    let mut both = words(a);
    both.extend(words(b));
    assert_eq!(words(&format!("{a} {b}")), both);
}

#[test]
fn an_open_quote_is_an_error() {
    for line in ["'a", "\"a", "a'b", "\"a\\\""] {
        assert_eq!(
            tokenize(line).unwrap_err(),
            LlmError::InvalidCurl("unterminated quote")
        );
    }
}

#[test]
fn a_whole_template_parses() {
    let parsed = parse_curl(
        "curl https://api.example.com/v1/chat \\\n  --header 'Authorization: Bearer {{API_KEY}}' \\\n  -H \"X-A:  b \" --compressed \\\n  -d '{\"b\": [1, 2.5, null], \"a\": \"{{TEXT}}\"}'",
    )
    .unwrap();
    assert_eq!(parsed.url, "https://api.example.com/v1/chat");
    assert_eq!(parsed.method, "POST");
    assert_eq!(header(&parsed, "Authorization"), "Bearer {{API_KEY}}");
    assert_eq!(header(&parsed, "X-A"), "b");
    assert_eq!(
        parsed.body.unwrap().to_text(),
        r#"{"a":"{{TEXT}}","b":[1,2.5,null]}"#
    );
}

#[test]
fn the_method_defaults_by_the_body() {
    assert_eq!(parse_curl("curl http://x").unwrap().method, "GET");
    assert_eq!(parse_curl("curl http://x --data-raw 1").unwrap().method, "POST");
    assert_eq!(parse_curl("-X put --data-binary 1 http://x").unwrap().method, "put");
    assert_eq!(parse_curl("--request A -X B http://x").unwrap().method, "B");
}

#[test]
fn the_url_is_the_first_bare_word_or_the_flag() {
    assert_eq!(parse_curl("curl a b").unwrap().url, "a");
    assert_eq!(parse_curl("curl a --url c b").unwrap().url, "c");
    assert_eq!(parse_curl("curl curl").unwrap().url, "curl");
}

#[test]
fn a_later_header_replaces_an_earlier_one() {
    let parsed = parse_curl("x -H a:1 -H a:2 -H 'b: c:d'").unwrap();
    assert_eq!(header(&parsed, "a"), "2");
    assert_eq!(header(&parsed, "b"), "c:d");
}

#[test]
fn missing_parts_are_errors() {
    for (line, message) in [
        ("x -X", "missing -X value"),
        ("x -H", "missing -H value"),
        ("x -H nocolon", "bad header"),
        ("x --data", "missing -d value"),
        ("x --url", "missing --url value"),
        ("curl -X GET", "missing URL"),
    ] {
        assert_eq!(parse_curl(line).unwrap_err(), LlmError::InvalidCurl(message));
        if message != "missing URL" {
            assert_eq!(parse_args(line).unwrap_err(), LlmError::InvalidCurl(message));
        }
    }
}

#[test]
fn a_body_that_is_no_json_is_an_error() {
    assert_eq!(
        parse_curl("x -d '{'").unwrap_err().to_string(),
        "curl parse: body json: EOF while parsing an object at line 1 column 1"
    );
    assert_eq!(parse_curl("-d '{'").unwrap_err(), LlmError::InvalidCurl("missing URL"));
}
