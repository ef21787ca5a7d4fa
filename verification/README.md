# rusty_pstore

A password store: entries are kept in a JSON file, every name and field encrypted
with AES-256-GCM under a key derived from the master password with PBKDF2-HMAC-SHA-512.

- `src/` is the verified library (Verus):
  - `encoding.rs`: standard base64, with its specification and the proof that decoding
    inverts encoding;
  - `text.rs`: trimming and UTF-8 reading;
  - `crypto.rs`: key derivation, `encrypt` and `decrypt`, and the proof that `decrypt`
    undoes `encrypt`;
  - `store.rs`: `PassInfo` and `Pass`, the entries of a password file, with distinct names;
  - `vault.rs`: creating a file, logging in, listing names, reading and adding entries,
    and the proofs that relate them;
  - `history.rs`: what holds after a file was made and entries were added to it, in
    whatever order the file lists its entries, also when it is read back between
    additions (logging in still works, names are listed once each, reads give back the
    last write).
- `app/` is the Python module (pyo3): it reads and writes the file and prints messages.
- `tests/` runs the library on concrete values.
