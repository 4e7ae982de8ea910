# gzbdb

A key-value map kept in one file, and the logic of the gzbdb messaging layer: its
documents, requests and responses, handshakes and encryption.

- `src/frame.rs`: the frame that stores one value under one key, its pointer, and
  decoding a value back from its bytes.
- `src/scan.rs`: the scanner that reads a map file ten bytes at a time and records
  its runs (frames, zeros, unreadable bytes) and the pointer of each key.
- `src/map.rs`: `BucketMap`, the map: adding, rewriting and deleting keys, each
  returning the file writes that bring the file up to date.
- `src/laws.rs`: what holds across operations: consistency is kept, a read gives
  back what was written, other keys are left alone, deleted bytes are zeroed.
- `src/reload.rs`, `src/reopen.rs`, `src/persist.rs`: reopening a file: the stages
  of reading one frame, reading a file of zeros and frames ten bytes at a time, and
  a file kept by `add` and `delete` loading back to the map's pointers.
- `src/crypt/`: AES-256-CBC, RSA and SHA-256 signatures through openssl, and the
  document of encrypted data.
- `src/doc.rs`: message documents (named values) as the messaging logic reads them.
- `src/query.rs`: requests and responses as documents, writing them and reading
  them back, with encrypted bodies.
- `src/auth.rs`: the key handshake of a client and of the server as step functions
  (what the connection reported in, what to send or read next out), auth tokens and
  configurations.
- `src/link.rs`: reading from a connection: failures, waits, leftover bytes.
- `src/channels.rs`: the server's book of channels: the order it reads them in, and
  dropping those that are gone.
- `app/`: the file itself (opening, writing, reading), keys read from PEM files, and
  the loops that run the handshakes and the server's passes over its channels.
