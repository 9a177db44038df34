# logcatdigest (verified)

Turns Android `adb logcat -v threadtime` lines into a redacted, clustered
snapshot. The library in `src/` is written in Verus and proved against its
contracts:

- `text` — character-sequence helpers (ASCII case folding, substring search,
  Unicode whitespace, trimming) with their specifications.
- `content`, `severity` — content-type and high-severity rules.
- `parse` — the threadtime line grammar (`parse_threadtime`).
- `event` — folding fatal/ANR stacks by pid into events; proof that grouping
  partitions the input lines.
- `fingerprint` — redaction and noise collapse (through the `regex` crate),
  SHA-256 (through `sha2`), hex fingerprints and device labels.
- `reduce` — clustering by fingerprint, rank sort with high-severity pinning,
  and the compact-JSON byte budget; proofs of the counting, ordering and
  trimming properties.
- `snapshot` — options, builder, `Snapshot`, digest key and change detection.

`app/` holds the serde copies of the snapshot types and `to_pretty_json`.
