# telegram_obsidian

A server that imports messages from a Telegram group into Obsidian notes: it polls the Bot API,
stores photos, files, stickers and custom emoji in a vault directory, queues one note event per
message, and serves events and vault files to paired Obsidian clients over HTTP.

- `src/` is the verified library (Verus): paths and file names, UTF-16 offsets, custom emoji
  sizing and rendering, message classification, pairing codes and tokens, event Markdown and
  selection, the Bot API error texts, the settings and their defaults, and the decisions of
  the polling loop. Its laws are the public proof functions
  (`lemma_*`). `src/outside.rs` holds the calls into rand, chrono and flate2/serde_json, each
  behind a trusted item.
- `app/` is the program around it: HTTP handlers (axum), Bot API calls and downloads (reqwest),
  files (tokio), JSON (serde) and settings from the environment.
- `tests/` runs the library on concrete values.

Custom emoji assets are kept in `EmojiAssets`, a map of two vectors with distinct ids as its type
invariant, rather than a `HashMap<String, _>`: vstd specifies `HashMap` well only for keys whose
equality it knows, and with `String` keys nothing about lookups and inserts could be proved.
