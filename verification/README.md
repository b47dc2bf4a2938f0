# mbx_verify

A verified library for checking the integrity of AiBenchLab MBX v2 exports,
and the `aibenchlab-verify` command-line tool built on it.

An MBX v2 file is a JSON object that carries a SHA-256 `content_hash` of its own
canonical form. Verification checks the format identifiers, clears the stored
hash, turns every number into its six-decimal text, writes the tree as compact
JSON in its original key order, hashes the UTF-8 bytes and compares the
lowercase hex digest with the stored one.

Layout:

- `src/json.rs` – the JSON document model and its queries.
- `src/canonical.rs` – number normalization and compact serialization.
- `src/digest.rs` – SHA-256 and lowercase hex.
- `src/verify.rs` – the verification procedure and its error messages.
- `src/info.rs` – the package summary shown beside a result.
- `src/timestamp.rs` – date-time formatting, timestamp reading, durations.
- `src/batch.rs` – MBX file names, outcome counts and exit status.
- `src/text.rs` – decimal and hexadecimal text.
- `app/main.rs` – argument handling, file reading, JSON parsing and output.

Every function in `src/` carries a contract checked by Verus, except the few
trusted wrappers around outside code (SHA-256 from `sha2`, string quoting and
its error message from `serde_json`, `str::trim` from std), whose contracts are
taken as stated in their doc comments.
