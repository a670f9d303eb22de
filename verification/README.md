# passman

A local, offline password vault. The vault is one encrypted file: a header
with key slots (the data key wrapped under an Argon2id key derived from the
master passphrase) followed by the content, encrypted with
XChaCha20-Poly1305 under the data key with the whole header as associated
data.

- `src/` is the library, verified with Verus: the file format and its
  parser (`vault::format`, `vault::parse`), the vault model with unlocking,
  re-serialising and passphrase changes (`vault::model`), the entry model
  (`vault::payload`), the password generator, the helpers of the command
  line (`cli`), and thin, documented wrappers around the `chacha20poly1305`,
  `argon2` and `getrandom` crates (`crypto`).
- `app/` is the `passman` program: argument parsing, prompts, file I/O,
  the clipboard, CBOR encoding of the entries and process hardening.
- `tests/` exercises the library with the real outside crates linked.

The central properties proved are that a vault written by the library parses
back to the same header and unlocks with its passphrase to the same content
(`vault::model::lemma_serialized_vault_unlocks`), and that the parser reads
back exactly what the encoder writes (`vault::format::lemma_parse_file_bytes`).
