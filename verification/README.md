# riftx

`riftx` packs a directory into a single archive: tar, then xz, then
ChaCha20-Poly1305 encryption in 64 KiB frames under a key derived from a
password with Argon2id.

- `src/` is the verified library (Verus): the frame format (`frame`), the
  encrypting writer and decrypting reader state machines (`writer`,
  `reader`), key derivation and salt (`kdf`), the cipher calls (`aead`), the
  progress byte counter (`progress`) and the command line's password and
  path rules (`password`, `paths`).
- `app/` is the command line program: argument parsing, prompts, files,
  tar and xz, and `std::io` adapters that drive the library's writer and
  reader.
- `tests/` exercises the library, including full encrypt/decrypt round trips.

An archive is the 32-byte salt followed by frames
`[plaintext_len: u32 LE][ciphertext + 16-byte tag]`; the nonce of a frame is
its position in the stream and is never stored.
