# ironhide_cli

A command-line password manager. Logins are kept in a SQLite table; every
field is sealed with ChaCha20-Poly1305 under a key derived from the master
password and stored as the decimal text of the ciphertext bytes. The master
password itself is kept only as a bcrypt hash.

Layout:

- `src/` — the verified library (Verus):
  - `text.rs`: decimal numbers as Rust prints and parses them, the `", "`
    byte lists of stored fields (with the round-trip lemma), ASCII case,
    trailing whitespace;
  - `database.rs`: key derivation, sealing and opening of fields, the SQL
    statements;
  - `password.rs`: bcrypt hashing and checking of the master password;
  - `generator.rs`: random password generation and the answers to its
    questions;
  - `lib.rs`: first sign-in detection, command and input-line reading.
- `app/` — the program: prompts, terminal colours, clipboard, files and the
  database connection.
- `tests/` — tests of the library, several of them against the standard
  library's own formatting and parsing.
