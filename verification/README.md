# pear_bot

The logic of a small chat bot, verified with Verus.

- `src/cipher.rs`: the shift cipher for messages, and the proof that
  decryption undoes encryption.
- `src/envelope.rs`: the reply that carries an encrypted message, the split of
  a referenced reply into message id and ciphertext, and the permission file.
- `src/protocol.rs`: drawing the numeric keys.
- `src/quota.rs`: the daily question quota and the expiry of stored counts.
- `src/gemini.rs`: the request body sent to the model and the answer read
  from its reply.
- `src/replies.rs`: prompts, replies, and which command a chat message calls for.
- `src/decimal.rs`, `src/text.rs`, `src/pattern.rs`: decimal numbers, text
  helpers, and pattern matching through `regex`.
- `app/`: the bot itself (gateway client, commands, files, `curl`).
