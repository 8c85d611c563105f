//! Pattern matching through the `regex` crate.

use vstd::prelude::*;
use crate::text::is_white_space;

verus! {

/// What capture group 1 of the first match of `pattern` in `text` holds, as
/// the `regex` crate finds it (`None` when there is no match, when group 1
/// takes no part in it, or when `pattern` does not compile).
pub uninterp spec fn regex_group_one(pattern: Seq<char>, text: Seq<char>) -> Option<Seq<char>>;

/// The pattern that picks the part of a quota key after its first `'-'`.
pub const DASH_CAPTURE: &'static str = "-(.*)";

/// The characters of `s` before its first `'\n'` (all of `s` if none).
pub open spec fn line_prefix(s: Seq<char>) -> Seq<char>
    decreases s.len(),
{
    if s.len() == 0 || s[0] == '\n' {
        Seq::empty()
    } else {
        seq![s[0]] + line_prefix(s.drop_first())
    }
}

/// The characters after the first `'-'` of `s`, up to the next `'\n'`;
/// `None` when `s` has no `'-'`. This is what `DASH_CAPTURE` captures: the
/// leftmost match starts at the first `'-'` (`.*` can match nothing), and the
/// greedy `.*` takes every character up to a line feed, which `.` does not match.
pub open spec fn dash_tail(s: Seq<char>) -> Option<Seq<char>>
    decreases s.len(),
{
    if s.len() == 0 {
        None
    } else if s[0] == '-' {
        Some(line_prefix(s.drop_first()))
    } else {
        dash_tail(s.drop_first())
    }
}

/// The pattern that finds the first `"text": "..."` field of a JSON reply
/// and captures its (still escaped) string content.
pub const TEXT_FIELD_PATTERN: &'static str = r#"(?s)"text"\s*:\s*"((?:\\.|[^"\\])*)""#;

/// The first index at or after `i` whose character is not white space (the
/// length of `s` if there is none).
pub open spec fn skip_white_space(s: Seq<char>, i: int) -> int
    decreases s.len() - i,
{
    if i < 0 || i >= s.len() || !is_white_space(s[i]) {
        i
    } else {
        skip_white_space(s, i + 1)
    }
}

/// Where the content of a JSON string that starts at `i` ends: the index of
/// the closing `'"'`, reading a backslash and the character after it as one
/// step; `None` when the text ends first.
pub open spec fn string_end(s: Seq<char>, i: int) -> Option<int>
    decreases s.len() - i,
{
    if i < 0 || i >= s.len() {
        None
    } else if s[i] == '"' {
        Some(i)
    } else if s[i] == '\\' {
        if i + 1 < s.len() {
            string_end(s, i + 2)
        } else {
            None
        }
    } else {
        string_end(s, i + 1)
    }
}

/// The characters `"text"` (with the quotes).
pub open spec fn text_key() -> Seq<char> {
    seq!['"', 't', 'e', 'x', 't', '"']
}

/// The content of a `"text"` field that starts at `p`: `"text"`, white space,
/// `':'`, white space, then a string whose content runs to its closing quote.
pub open spec fn text_field_at(s: Seq<char>, p: int) -> Option<Seq<char>> {
    if 0 <= p && p + 6 <= s.len() && s.subrange(p, p + 6) == text_key() {
        let a = skip_white_space(s, p + 6);
        if a < s.len() && s[a] == ':' {
            let b = skip_white_space(s, a + 1);
            if b < s.len() && s[b] == '"' {
                match string_end(s, b + 1) {
                    Some(e) => Some(s.subrange(b + 1, e)),
                    None => None,
                }
            } else {
                None
            }
        } else {
            None
        }
    } else {
        None
    }
}

/// The content of the leftmost `"text"` field at or after `p`.
pub open spec fn text_field_from(s: Seq<char>, p: int) -> Option<Seq<char>>
    decreases s.len() + 1 - p,
{
    if p < 0 || p > s.len() {
        None
    } else {
        match text_field_at(s, p) {
            Some(t) => Some(t),
            None => text_field_from(s, p + 1),
        }
    }
}

/// What `TEXT_FIELD_PATTERN` captures in `s`: the string content of the
/// leftmost `"text"` field. The leftmost match wins; `\s*` is greedy over
/// Unicode white space and must be followed by `':'` (then by `'"'`); inside
/// the string, a backslash always takes the next character with it and any
/// other character but `'"'` stands alone, so the content runs to the first
/// quote that no backslash takes, and a start whose string is never closed
/// does not match.
pub open spec fn text_field(s: Seq<char>) -> Option<Seq<char>> {
    text_field_from(s, 0)
}

proof fn lemma_text_field_from(s: Seq<char>, q: int, p: int)
    requires
        0 <= q <= p <= s.len(),
        text_field_at(s, p) is Some,
        forall|r: int| q <= r < p ==> #[trigger] text_field_at(s, r) is None,
    ensures
        text_field_from(s, q) == text_field_at(s, p),
    decreases p - q,
{
    if q < p {
        assert(text_field_at(s, q) is None);
        lemma_text_field_from(s, q + 1, p);
    }
}

/// The answer is taken from the leftmost complete `"text"` field: when the
/// field starting at `p` is complete and none starts before it, it is the
/// one captured, whatever later fields hold.
pub proof fn leftmost_text_field_wins(s: Seq<char>, p: int)
    requires
        0 <= p <= s.len(),
        text_field_at(s, p) is Some,
        forall|q: int| 0 <= q < p ==> #[trigger] text_field_at(s, q) is None,
    ensures
        text_field(s) == text_field_at(s, p),
{
    lemma_text_field_from(s, 0, p);
}

/// The view of an optional string.
pub open spec fn opt_view(s: Option<String>) -> Option<Seq<char>> {
    match s {
        Some(t) => Some(t@),
        None => None,
    }
}

/// Compiles `pattern` with `regex::Regex::new` and, when it compiles, calls
/// `Regex::captures` on `text` and takes the text of capture group 1. The
/// result is named by `regex_group_one`, which depends on `pattern` and `text`
/// alone. For `DASH_CAPTURE` and `TEXT_FIELD_PATTERN` the result is also
/// stated in full (`dash_tail`, `text_field`): it is what the `regex`
/// documentation gives for those patterns (leftmost-first match, greedy `*`,
/// `.` matching any character but `'\n'` unless `(?s)` is set, `\s` matching
/// `White_Space`).
#[verifier::external_body]
pub(crate) fn first_group(pattern: &str, text: &str) -> (out: Option<String>)
    ensures
        opt_view(out) == regex_group_one(pattern@, text@),
        pattern@ == DASH_CAPTURE@ ==> opt_view(out) == dash_tail(text@),
        pattern@ == TEXT_FIELD_PATTERN@ ==> opt_view(out) == text_field(text@),
{
    let re = regex::Regex::new(pattern).ok()?;
    let caps = re.captures(text)?;
    caps.get(1).map(|m| m.as_str().to_string())
}

} // verus!
