//! Core logic of a chat bot: a shift cipher for messages, a daily request
//! quota, key generation, and the text that the bot sends and parses.

pub mod text;
pub mod cipher;
pub mod decimal;
pub mod protocol;
pub mod envelope;
pub mod pattern;
pub mod quota;
pub mod gemini;
pub mod replies;
