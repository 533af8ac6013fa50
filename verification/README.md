# eva_music_backend

Backend of the Eva music player: a Telegram bot stores the audio files users send it,
and a Telegram Mini App lists and plays them.

- `src/` is the library, verified with Verus: Mini App init-data validation
  (`telegram/fields.rs`, `telegram/webapp.rs`; in `telegram/signing.rs` the proofs that
  Telegram-signed data is accepted and that data signed under another token, or altered
  after signing, is accepted only through an HMAC-SHA256 collision; in
  `telegram/invariance.rs` the proofs that the order of the pairs and the case of the
  hash do not matter), webhook decisions (`telegram/webhook.rs`),
  configuration (`config.rs`), SQLite URL handling (`db.rs`), the desktop music library
  (`library.rs`), and the character, number and order utilities they use, with
  `ascii_case.rs` on how a change of ASCII case survives percent- and UTF-8 decoding. `outside.rs`
  holds the trusted items through which the library calls `hmac`, `sha2`, `hex`,
  `urlencoding`, `http` and `std`.
- `app/` is the server around it: routes (axum), storage (sqlx/SQLite), calls to the
  Bot API (reqwest), JSON (serde), and the desktop commands.
- `tests/` exercise the library.
