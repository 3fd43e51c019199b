# filepaste

A small file-sharing service. Uploads are authorised with a one-time
password, stored under a random directory with the file name hex-encoded,
prefixed with a retention header and encrypted with ChaCha20-Poly1305 in the
STREAM construction.

## Layout

- `src/` — the verified library (Verus):
  - `endpoint/sanitize.rs` — request-path sanitising, with the laws that a
    sanitised path stays inside the storage root and that sanitising is
    idempotent;
  - `endpoint/handlers.rs` — the decisions of the upload and download
    handlers (random storage names, hex file names, download names);
  - `storage/encryption.rs` — the sealed storage format, segment by segment
    and for whole objects, with the size reconstruction;
  - `storage/retention.rs` — the retention header format, the locking rules
    and the parsing of the requested retention;
  - `storage/local.rs` — the local backend's path rules;
  - `path_text.rs` — path joining and component splitting;
  - `gc.rs` — the depth-first pruning walk as a state machine;
  - `totp.rs` — the password-derived one-time-password generator.
- `app/` — the asynchronous service around it: HTTP handlers, storage
  layers over readers and the file system, the garbage-collection loop and
  the command line.
- `tests/` — tests of the library.
