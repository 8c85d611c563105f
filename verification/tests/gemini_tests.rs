use pear_bot::gemini::{
    answer_from_field, api_key_header, extract_response, request_body, unescape_field, NO_TEXT_FIELD,
};

#[test]
fn body_carries_prompt() {
    let prompt = "What is 2+2?";
    let expected = format!(
        r#"{{
            "contents": [
                {{
                    "parts": [
                        {{ "text": "{}" }}
                    ]
                }}
            ]
        }}"#,
        prompt
    );
    assert_eq!(request_body(prompt), expected);
}

#[test]
fn header_carries_key() {
    assert_eq!(api_key_header("abc"), "x-goog-api-key: abc");
}

#[test]
fn first_text_field_of_a_reply() {
    let json = r#"{"candidates":[{"content":{"parts":[{"text": "hello"}]}}]}"#;
    assert_eq!(extract_response(json), Some("hello".to_string()));
}

#[test]
fn answer_is_first_text_field_decoded() {
    let json = r#"{"candidates":[{"content":{"parts":[{"text": "Line one\nLine \"two\" \\ done"}]}}], "text": "later"}"#;
    assert_eq!(extract_response(json), Some("Line one\nLine \"two\" \\ done".to_string()));
}

#[test]
fn answer_over_several_lines_of_json() {
    let json = "{\n  \"text\"\n  :\n  \"a\\nb\"\n}";
    assert_eq!(extract_response(json), Some("a\nb".to_string()));
}

#[test]
fn no_text_field() {
    assert_eq!(extract_response("{}"), None);
    assert_eq!(extract_response("{\"error\": 1}"), None);
    assert_eq!(extract_response(""), None);
    // an unterminated string is no match
    assert_eq!(extract_response(r#"{"text": "abc"#), None);
    assert_eq!(NO_TEXT_FIELD, "No text field found.");
}

#[test]
fn escaped_backslash_before_n_stays_a_backslash_and_n() {
    // the JSON text a\\nb holds a, backslash, n, b
    assert_eq!(extract_response(r#"{"text": "a\\nb"}"#), Some("a\\nb".to_string()));
}

#[test]
fn each_escape_is_read_once_from_the_left() {
    assert_eq!(unescape_field(r#"a\\\"b"#), "a\\\"b");
    assert_eq!(unescape_field(r#"\t\r\/\b\f"#), "\t\r/\u{8}\u{c}");
    // a \u escape is kept as written
    assert_eq!(unescape_field(r#"\u0041"#), "\\u0041");
    assert_eq!(unescape_field("plain"), "plain");
    // a lone backslash at the end stays
    assert_eq!(unescape_field("x\\"), "x\\");
}

#[test]
fn decoding_matches_json_for_simple_escapes() {
    for raw in [r#"a\"b"#, r#"c\\d"#, r#"e\nf"#, r#"\\\\n"#, r#"\\\"\n"#] {
        let expected: String = {
            let mut out = String::new();
            let mut it = raw.chars();
            while let Some(c) = it.next() {
                if c == '\\' {
                    match it.next() {
                        Some('n') => out.push('\n'),
                        Some(other) => out.push(other),
                        None => out.push('\\'),
                    }
                } else {
                    out.push(c);
                }
            }
            out
        };
        assert_eq!(unescape_field(raw), expected, "raw {:?}", raw);
    }
}

#[test]
fn captured_field_to_answer() {
    assert_eq!(answer_from_field(None), None);
    assert_eq!(answer_from_field(Some("x\\ny".to_string())), Some("x\ny".to_string()));
}

#[test]
fn text_field_spacing_and_order() {
    // Unicode white space around the colon
    assert_eq!(extract_response("{\"text\"\u{3000}:\u{a0}\"x\"}"), Some("x".to_string()));
    // the first "text" has no string; a later complete one is taken
    assert_eq!(extract_response(r#"{"text": 1, "text": "b"}"#), Some("b".to_string()));
    // the first complete field wins over later ones
    assert_eq!(extract_response(r#"["text":"a\"q","text":"b"]"#), Some("a\"q".to_string()));
    // a key that merely ends in text does not count
    assert_eq!(extract_response(r#"{"subtext": "n"}"#), None);
}
