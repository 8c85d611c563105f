//! The text exchanged with the Gemini model: the request body that carries a
//! prompt, and the answer text picked out of the model's JSON reply.

use vstd::prelude::*;
use crate::pattern::{first_group, opt_view, regex_group_one, text_field, TEXT_FIELD_PATTERN};
use crate::text::{chars_of, push_str, string_of};

verus! {

/// The address that prompts are posted to.
pub const GEMINI_URL: &'static str = "https://generativelanguage.googleapis.com/v1beta/models/gemini-2.5-flash:generateContent";

/// The header line that carries the API key, before the key.
pub const API_KEY_HEADER_HEAD: &'static str = "x-goog-api-key: ";

/// The request body before the prompt.
pub const REQUEST_HEAD: &'static str = "{\n            \"contents\": [\n                {\n                    \"parts\": [\n                        { \"text\": \"";

/// The request body after the prompt.
pub const REQUEST_TAIL: &'static str = "\" }\n                    ]\n                }\n            ]\n        }";

/// What the bot shows when a reply from the model has no text field.
pub const NO_TEXT_FIELD: &'static str = "No text field found.";

/// The JSON request body that asks the model `prompt`; the prompt is put in
/// as it is, without escaping.
pub fn request_body(prompt: &str) -> (body: String)
    ensures
        body@ == REQUEST_HEAD@ + prompt@ + REQUEST_TAIL@,
{
    let mut body = String::new();
    push_str(&mut body, REQUEST_HEAD);
    push_str(&mut body, prompt);
    push_str(&mut body, REQUEST_TAIL);
    assert(body@ =~= REQUEST_HEAD@ + prompt@ + REQUEST_TAIL@);
    body
}

/// The header that carries `api_key`.
pub fn api_key_header(api_key: &str) -> (header: String)
    ensures
        header@ == API_KEY_HEADER_HEAD@ + api_key@,
{
    let mut header = String::new();
    push_str(&mut header, API_KEY_HEADER_HEAD);
    push_str(&mut header, api_key);
    assert(header@ =~= API_KEY_HEADER_HEAD@ + api_key@);
    header
}

/// The character that a JSON escape `\c` stands for, for the escapes of a
/// single character; `None` for any other `c` (such as the `u` of `\uXXXX`).
pub open spec fn json_escape(c: char) -> Option<char> {
    if c == '"' {
        Some('"')
    } else if c == '\\' {
        Some('\\')
    } else if c == '/' {
        Some('/')
    } else if c == 'b' {
        Some('\u{8}')
    } else if c == 'f' {
        Some('\u{c}')
    } else if c == 'n' {
        Some('\n')
    } else if c == 'r' {
        Some('\r')
    } else if c == 't' {
        Some('\t')
    } else {
        None
    }
}

/// The decoded content of a JSON string: read from the left, a backslash and
/// the character after it form one escape, which stands for the character
/// that `json_escape` gives (an escape without one, such as `\u`, is kept
/// as written); every other character stands for itself.
pub open spec fn json_unescape(s: Seq<char>) -> Seq<char>
    decreases s.len(),
{
    if s.len() == 0 {
        Seq::empty()
    } else if s[0] == '\\' && s.len() >= 2 {
        match json_escape(s[1]) {
            Some(c) => seq![c] + json_unescape(s.skip(2)),
            None => seq![s[0], s[1]] + json_unescape(s.skip(2)),
        }
    } else {
        seq![s[0]] + json_unescape(s.drop_first())
    }
}

/// Decoding reads one step at a time from the left: a character other than
/// a backslash stands for itself, and each escape `\n`, `\"`, `\\`, `\/`,
/// `\b`, `\f`, `\r`, `\t` stands for one character (line feed, quote,
/// backslash, slash, backspace, form feed, carriage return, tab), whatever
/// follows it.
pub proof fn decoding_steps(c: char, t: Seq<char>)
    ensures
        c != '\\' ==> json_unescape(seq![c] + t) == seq![c] + json_unescape(t),
        json_unescape(seq!['\\', 'n'] + t) == seq!['\n'] + json_unescape(t),
        json_unescape(seq!['\\', '"'] + t) == seq!['"'] + json_unescape(t),
        json_unescape(seq!['\\', '\\'] + t) == seq!['\\'] + json_unescape(t),
        json_unescape(seq!['\\', '/'] + t) == seq!['/'] + json_unescape(t),
        json_unescape(seq!['\\', 'b'] + t) == seq!['\u{8}'] + json_unescape(t),
        json_unescape(seq!['\\', 'f'] + t) == seq!['\u{c}'] + json_unescape(t),
        json_unescape(seq!['\\', 'r'] + t) == seq!['\r'] + json_unescape(t),
        json_unescape(seq!['\\', 't'] + t) == seq!['\t'] + json_unescape(t),
{
    assert((seq![c] + t).drop_first() == t);
    assert((seq!['\\', 'n'] + t).skip(2) == t);
    assert((seq!['\\', '"'] + t).skip(2) == t);
    assert((seq!['\\', '\\'] + t).skip(2) == t);
    assert((seq!['\\', '/'] + t).skip(2) == t);
    assert((seq!['\\', 'b'] + t).skip(2) == t);
    assert((seq!['\\', 'f'] + t).skip(2) == t);
    assert((seq!['\\', 'r'] + t).skip(2) == t);
    assert((seq!['\\', 't'] + t).skip(2) == t);
}

/// The JSON string content that stands for `x`: each line feed, quote and
/// backslash written as its escape, every other character as it is.
pub open spec fn json_escaped(x: Seq<char>) -> Seq<char>
    decreases x.len(),
{
    if x.len() == 0 {
        Seq::empty()
    } else {
        let c = x[0];
        let head = if c == '\n' {
            seq!['\\', 'n']
        } else if c == '"' {
            seq!['\\', '"']
        } else if c == '\\' {
            seq!['\\', '\\']
        } else {
            seq![c]
        };
        head + json_escaped(x.drop_first())
    }
}

/// Decoding undoes escaping, also in front of any further text: the escaped
/// form of `x` followed by `rest` decodes to `x` followed by the decoding of
/// `rest`. So every escape is decoded on its own: consecutive line feeds,
/// quotes and backslashes all come back one for one.
pub proof fn decoding_undoes_escaping(x: Seq<char>, rest: Seq<char>)
    ensures
        json_unescape(json_escaped(x) + rest) == x + json_unescape(rest),
    decreases x.len(),
{
    if x.len() > 0 {
        let c = x[0];
        let tail = x.drop_first();
        decoding_undoes_escaping(tail, rest);
        let u = json_escaped(tail) + rest;
        decoding_steps(c, u);
        if c == '\n' {
            assert(json_escaped(x) + rest == seq!['\\', 'n'] + u);
        } else if c == '"' {
            assert(json_escaped(x) + rest == seq!['\\', '"'] + u);
        } else if c == '\\' {
            assert(json_escaped(x) + rest == seq!['\\', '\\'] + u);
        } else {
            assert(json_escaped(x) + rest == seq![c] + u);
        }
        assert(seq![c] + (tail + json_unescape(rest)) == x + json_unescape(rest));
    } else {
        assert(json_escaped(x) + rest == rest);
        assert(x + json_unescape(rest) == json_unescape(rest));
    }
}

/// Decoding the escaped form of any text gives the text back.
pub proof fn decoding_reads_escaped_text(x: Seq<char>)
    ensures
        json_unescape(json_escaped(x)) == x,
{
    decoding_undoes_escaping(x, Seq::<char>::empty());
    assert(json_escaped(x) + Seq::<char>::empty() == json_escaped(x));
    assert(x + Seq::<char>::empty() == x);
    assert(json_unescape(Seq::<char>::empty()) == Seq::<char>::empty());
}

/// The character for the escape `\c`, if it is one of a single character.
fn escape_of(c: char) -> (out: Option<char>)
    ensures
        out == json_escape(c),
{
    if c == '"' {
        Some('"')
    } else if c == '\\' {
        Some('\\')
    } else if c == '/' {
        Some('/')
    } else if c == 'b' {
        Some('\u{8}')
    } else if c == 'f' {
        Some('\u{c}')
    } else if c == 'n' {
        Some('\n')
    } else if c == 'r' {
        Some('\r')
    } else if c == 't' {
        Some('\t')
    } else {
        None
    }
}

/// Decodes the content of a JSON string, reading each escape once, from the left.
pub fn unescape_field(field: &str) -> (answer: String)
    ensures
        answer@ == json_unescape(field@),
{
    let chars = chars_of(field);
    let n = chars.len();
    let mut out = String::new();
    let mut i: usize = 0;
    assert(chars@.skip(0) == chars@);
    while i < n
        invariant
            i <= n,
            n == chars@.len(),
            chars@ == field@,
            out@ + json_unescape(chars@.skip(i as int)) == json_unescape(field@),
        decreases n - i,
    {
        let ghost rest = chars@.skip(i as int);
        let ghost base = out@;
        if chars[i] == '\\' && i + 1 < n {
            assert(rest[0] == chars@[i as int] && rest[1] == chars@[i + 1]);
            assert(rest.skip(2) == chars@.skip(i + 2));
            match escape_of(chars[i + 1]) {
                Some(c) => {
                    out.push(c);
                    assert(out@ + json_unescape(chars@.skip(i + 2)) == base + (seq![c]
                        + json_unescape(rest.skip(2))));
                },
                None => {
                    out.push(chars[i]);
                    out.push(chars[i + 1]);
                    assert(out@ + json_unescape(chars@.skip(i + 2)) == base + (seq![
                        rest[0],
                        rest[1],
                    ] + json_unescape(rest.skip(2))));
                },
            }
            i = i + 2;
        } else {
            assert(rest[0] == chars@[i as int]);
            assert(rest.drop_first() == chars@.skip(i + 1));
            out.push(chars[i]);
            assert(out@ + json_unescape(chars@.skip(i + 1)) == base + (seq![rest[0]]
                + json_unescape(rest.drop_first())));
            i = i + 1;
        }
    }
    assert(chars@.skip(n as int) == Seq::<char>::empty());
    assert(out@ + Seq::<char>::empty() == out@);
    out
}

/// The answer for what the text-field pattern captured: the decoded content
/// of the captured string, or `None` when nothing was captured.
pub open spec fn answer_for(field: Option<Seq<char>>) -> Option<Seq<char>> {
    match field {
        Some(t) => Some(json_unescape(t)),
        None => None,
    }
}

/// The answer for a captured text field: its decoded content, or `None` when
/// nothing was captured.
pub fn answer_from_field(field: Option<String>) -> (answer: Option<String>)
    ensures
        opt_view(answer) == answer_for(opt_view(field)),
{
    match field {
        None => None,
        Some(t) => Some(unescape_field(t.as_str())),
    }
}

/// Extracts the first `"text": "..."` value from a JSON reply of the model,
/// decoded: `Some` when the reply has such a field, `None` otherwise. The
/// field is the leftmost one whose string is closed (`text_field`).
pub fn extract_response(json_str: &str) -> (answer: Option<String>)
    ensures
        opt_view(answer) == answer_for(regex_group_one(TEXT_FIELD_PATTERN@, json_str@)),
        opt_view(answer) == answer_for(text_field(json_str@)),
{
    let field = first_group(TEXT_FIELD_PATTERN, json_str);
    answer_from_field(field)
}

} // verus!
