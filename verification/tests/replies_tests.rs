use pear_bot::replies::{
    ask_answer, ask_prompt, pear_answer, pear_answer_quoted, pear_author, pear_prompt, route_lowercase,
    route_message, Route,
    SILENCED_AUTHOR,
};
use pear_bot::text::{chars_of, trim_chars, white_space};

#[test]
fn prompts_wrap_the_text() {
    let content = "why?";
    assert_eq!(
        ask_prompt(content),
        format!("Answer this question in detail (But without exceeding 2000 characters). If the question only contains '.ask' or doesnt have any real question respond with a random food/animal emoji. Use MARKDOWN for formatting. \n The question: <<{content}>> ")
    );
    assert_eq!(
        pear_prompt(content),
        format!("I will give you a message and i want you to reformulte it in an aristocratic type of tone. Like old sophisticated english, but not to the point where there is complicated words like shakespeare (like none of those harth type words that end with th). Make sure to translate the right meaning for slang words too. Ignore any links in the message. And if the message is in french, do the same but in french, emulating moliere lamnguage for example. AND REPLY ONLY WITH THE RESPONSE MESSAGE.\n The message: <<{content}>> ")
    );
}

#[test]
fn answers_carry_count_and_author() {
    let parsed = "Four.";
    let usr_limit = 3usize;
    assert_eq!(
        ask_answer(parsed, usr_limit),
        format!("{parsed} \n \n -gemini ai \n \n (***{usr_limit} requests** are left for this user.*)")
    );
    let author = "Jo \"J\"";
    assert_eq!(pear_answer(parsed, author), format!("{parsed} \n -- {:?}", author));
}

#[test]
fn author_names() {
    assert_eq!(pear_author(None), "Unknown");
    assert_eq!(pear_author(Some("Ada")), "Ada");
}

#[test]
fn routing() {
    assert_eq!(route_message(1, "hello .pear"), Route { hush: false, pear: true, ask: false });
    assert_eq!(route_message(1, "HELLO .ASK and .Pear"), Route { hush: false, pear: true, ask: true });
    assert_eq!(route_message(1, "nothing here"), Route { hush: false, pear: false, ask: false });
    assert_eq!(route_message(SILENCED_AUTHOR, ".pear .ask"), Route { hush: true, pear: false, ask: false });
    assert_eq!(route_message(SILENCED_AUTHOR, ".ask"), Route { hush: false, pear: false, ask: true });
    // the Kelvin sign lowercases to an ASCII 'k'
    assert_eq!(route_message(1, ".as\u{212A}"), Route { hush: false, pear: false, ask: true });
}

#[test]
fn white_space_matches_std() {
    for u in 0u32..=0x10FFFF {
        if let Some(c) = char::from_u32(u) {
            assert_eq!(white_space(c), c.is_whitespace(), "char {:x}", u);
        }
    }
}

#[test]
fn trim_matches_std() {
    for t in ["", "  ", " a ", "\u{3000}x y\t\n", "abc"] {
        let trimmed: String = trim_chars(&chars_of(t)).into_iter().collect();
        assert_eq!(trimmed, t.trim());
    }
}

#[test]
fn routing_on_lowercase_text() {
    assert_eq!(route_lowercase(1, ".PEAR"), Route { hush: false, pear: false, ask: false });
    assert_eq!(route_lowercase(SILENCED_AUTHOR, "x.pear"), Route { hush: true, pear: false, ask: false });
    assert_eq!(pear_answer_quoted("a", "\"b\""), "a \n -- \"b\"");
}
