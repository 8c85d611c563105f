//! What the bot says: the prompts it sends to the model, the replies it
//! posts, and which commands a chat message calls for.

use vstd::prelude::*;
use crate::decimal::{decimal, push_decimal};
use crate::text::{chars_of, contains_chars, has_substring, push_str};

verus! {

/// The prompt of the question command, before the question.
pub const ASK_PROMPT_HEAD: &'static str = "Answer this question in detail (But without exceeding 2000 characters). If the question only contains '.ask' or doesnt have any real question respond with a random food/animal emoji. Use MARKDOWN for formatting. \n The question: <<";

/// The prompt of the rephrasing command, before the message.
pub const PEAR_PROMPT_HEAD: &'static str = "I will give you a message and i want you to reformulte it in an aristocratic type of tone. Like old sophisticated english, but not to the point where there is complicated words like shakespeare (like none of those harth type words that end with th). Make sure to translate the right meaning for slang words too. Ignore any links in the message. And if the message is in french, do the same but in french, emulating moliere lamnguage for example. AND REPLY ONLY WITH THE RESPONSE MESSAGE.\n The message: <<";

/// What closes both prompts.
pub const PROMPT_TAIL: &'static str = ">> ";

/// The answer to a question, after the model's text and before the count.
pub const ASK_ANSWER_MIDDLE: &'static str = " \n \n -gemini ai \n \n (***";

/// The answer to a question, after the count.
pub const ASK_ANSWER_TAIL: &'static str = " requests** are left for this user.*)";

/// The reply when a user's questions for the day are used up.
pub const ASK_LIMIT_REPLY: &'static str = "You've hit your daily limit of requests already gng :pensive:";

/// The reply to the rephrasing command without a referenced message.
pub const PEAR_USAGE_REPLY: &'static str = "This command is used on replied-to messages.";

/// The rephrased message, after the model's text and before the author.
pub const PEAR_ANSWER_MIDDLE: &'static str = " \n -- ";

/// The author shown when a user has no global name.
pub const UNKNOWN_AUTHOR: &'static str = "Unknown";

/// The reply to a user who may not read encrypted messages.
pub const NO_PERMISSION_REPLY: &'static str = ":face_with_monocle: You do not have permission to read this message lol.";

/// The reply when no key is stored for a referenced message.
pub const NO_KEY_REPLY: &'static str = "No key found for this message!";

/// The user whose rephrasing requests are answered with `HUSH_REPLY`.
pub const SILENCED_AUTHOR: u64 = 1203281930788012084;

/// The answer to the silenced user's rephrasing request.
pub const HUSH_REPLY: &'static str = "Ferme la toi";

/// The prompt that asks the model to answer `question`.
pub fn ask_prompt(question: &str) -> (prompt: String)
    ensures
        prompt@ == ASK_PROMPT_HEAD@ + question@ + PROMPT_TAIL@,
{
    let mut prompt = String::new();
    push_str(&mut prompt, ASK_PROMPT_HEAD);
    push_str(&mut prompt, question);
    push_str(&mut prompt, PROMPT_TAIL);
    assert(prompt@ =~= ASK_PROMPT_HEAD@ + question@ + PROMPT_TAIL@);
    prompt
}

/// The prompt that asks the model to rephrase `message`.
pub fn pear_prompt(message: &str) -> (prompt: String)
    ensures
        prompt@ == PEAR_PROMPT_HEAD@ + message@ + PROMPT_TAIL@,
{
    let mut prompt = String::new();
    push_str(&mut prompt, PEAR_PROMPT_HEAD);
    push_str(&mut prompt, message);
    push_str(&mut prompt, PROMPT_TAIL);
    assert(prompt@ =~= PEAR_PROMPT_HEAD@ + message@ + PROMPT_TAIL@);
    prompt
}

/// The answer to a question: the model's text, then how many questions the
/// user has left today.
pub fn ask_answer(answer: &str, remaining: usize) -> (reply: String)
    ensures
        reply@ == answer@ + ASK_ANSWER_MIDDLE@ + decimal(remaining as nat) + ASK_ANSWER_TAIL@,
{
    let mut reply = String::new();
    push_str(&mut reply, answer);
    push_str(&mut reply, ASK_ANSWER_MIDDLE);
    push_decimal(&mut reply, remaining as u64);
    push_str(&mut reply, ASK_ANSWER_TAIL);
    assert(reply@ =~= answer@ + ASK_ANSWER_MIDDLE@ + decimal(remaining as nat) + ASK_ANSWER_TAIL@);
    reply
}

/// The text of `s` as `format!("{:?}", s)` writes it (quoted and escaped);
/// it depends on `s` alone.
pub uninterp spec fn debug_text(s: Seq<char>) -> Seq<char>;

/// Formats `s` with `{:?}`, the `Debug` form of a string. The result is
/// named by `debug_text`; nothing more is claimed of it.
#[verifier::external_body]
fn debug_quoted(s: &str) -> (out: String)
    ensures
        out@ == debug_text(s@),
{
    format!("{:?}", s)
}

/// The author shown under a rephrased message: the user's global name, or
/// `UNKNOWN_AUTHOR` when there is none.
pub fn pear_author(global_name: Option<&str>) -> (author: String)
    ensures
        author@ == match global_name {
            Some(name) => name@,
            None => UNKNOWN_AUTHOR@,
        },
{
    match global_name {
        None => UNKNOWN_AUTHOR.to_string(),
        Some(name) => name.to_string(),
    }
}

/// The rephrased message, given the author already in `Debug` form.
pub fn pear_answer_quoted(answer: &str, quoted_author: &str) -> (reply: String)
    ensures
        reply@ == answer@ + PEAR_ANSWER_MIDDLE@ + quoted_author@,
{
    let mut reply = String::new();
    push_str(&mut reply, answer);
    push_str(&mut reply, PEAR_ANSWER_MIDDLE);
    push_str(&mut reply, quoted_author);
    assert(reply@ =~= answer@ + PEAR_ANSWER_MIDDLE@ + quoted_author@);
    reply
}

/// The rephrased message: the model's text, then the author in `Debug` form.
pub fn pear_answer(answer: &str, author: &str) -> (reply: String)
    ensures
        reply@ == answer@ + PEAR_ANSWER_MIDDLE@ + debug_text(author@),
{
    let quoted = debug_quoted(author);
    pear_answer_quoted(answer, quoted.as_str())
}

/// `s` in lower case as `str::to_lowercase` gives it; it depends on `s` alone.
pub uninterp spec fn lowercase_text(s: Seq<char>) -> Seq<char>;

/// Calls `str::to_lowercase`. The result is named by `lowercase_text`.
#[verifier::external_body]
fn lowercase(s: &str) -> (out: String)
    ensures
        out@ == lowercase_text(s@),
{
    s.to_lowercase()
}

/// The text that calls for the rephrasing command.
pub open spec fn pear_trigger() -> Seq<char> {
    seq!['.', 'p', 'e', 'a', 'r']
}

/// The text that calls for the question command.
pub open spec fn ask_trigger() -> Seq<char> {
    seq!['.', 'a', 's', 'k']
}

/// What a chat message calls for.
#[derive(Debug, PartialEq, Eq)]
pub struct Route {
    /// Answer with `HUSH_REPLY` and nothing else.
    pub hush: bool,
    /// Run the rephrasing command.
    pub pear: bool,
    /// Run the question command.
    pub ask: bool,
}

/// Decides what a chat message calls for, from its author and its text
/// already in lower case: the silenced user's rephrasing requests are hushed;
/// otherwise a `.pear` in the text runs the rephrasing command and a `.ask`
/// the question command (both may run).
pub fn route_lowercase(author_id: u64, lower: &str) -> (route: Route)
    ensures
        route.hush == (author_id == SILENCED_AUTHOR && has_substring(lower@, pear_trigger())),
        route.pear == (!route.hush && has_substring(lower@, pear_trigger())),
        route.ask == (!route.hush && has_substring(lower@, ask_trigger())),
{
    let chars = chars_of(lower);
    let pear_text = vec!['.', 'p', 'e', 'a', 'r'];
    let ask_text = vec!['.', 'a', 's', 'k'];
    assert(pear_text@ == pear_trigger());
    assert(ask_text@ == ask_trigger());
    let has_pear = contains_chars(&chars, &pear_text);
    if author_id == SILENCED_AUTHOR && has_pear {
        Route { hush: true, pear: false, ask: false }
    } else {
        let has_ask = contains_chars(&chars, &ask_text);
        Route { hush: false, pear: has_pear, ask: has_ask }
    }
}

/// Decides what a chat message calls for, from its author and its text in
/// lower case (as `str::to_lowercase` gives it).
pub fn route_message(author_id: u64, content: &str) -> (route: Route)
    ensures
        ({
            let lower = lowercase_text(content@);
            &&& route.hush == (author_id == SILENCED_AUTHOR && has_substring(lower, pear_trigger()))
            &&& route.pear == (!route.hush && has_substring(lower, pear_trigger()))
            &&& route.ask == (!route.hush && has_substring(lower, ask_trigger()))
        }),
{
    let lower = lowercase(content);
    route_lowercase(author_id, lower.as_str())
}

} // verus!
