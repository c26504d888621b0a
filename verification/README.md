# rizubot

The logic of a community chat bot, verified with Verus.

- `src/` is the verified library:
  - `markdown` splits a long Markdown reply into chunks of about 1900 bytes,
    closing the formatting that is open at a cut and reopening it in the next
    chunk; `markdown_laws`, `scan_laws`, `chunk_size_laws` and `rescan_laws` prove what
    holds of every split.
  - `reaction_role`, `user`, `music`, `channels`, `chat` and `json` hold the
    decisions and replies of the bot's commands; `json` also decodes a
    service's reply with `serde_json`.
  - `text` has the character and number helpers they share.
- `app/` is the bot itself: the chat framework, the database, the voice
  queue and the HTTP calls, which hand plain values to the library.
- `tests/` runs the library on concrete inputs.
