# kodecks_client

The verified core of the Kodecks card-game client, written in Verus.

- `src/` is the library. Every function carries a `requires`/`ensures`
  contract that Verus proves: the bots' search over attack, block, cast and
  select choices and their scoring; the board the player edits during a
  battle; the deck editor; the game-log messages; card-number and shield
  rendering on RGBA images; the save-file container (base64, zlib and the
  nonce mask) and the account key; language choice; the login exchange; and
  the small decisions the client makes between server events.
- Calls into outside crates (base64, flate2, k256, rand, image,
  unic-langid, url) stand behind small trusted wrappers whose doc comments
  say what their contracts claim.
- `app/` is a thin command-line program around the library: options, the
  configuration and save files, and the serde copies of the save document.
- `tests/` runs the library on concrete values.
