# tafukt

A BitTorrent library whose logic is proved with Verus, and a small
command-line downloader built on it.

## Layout

- `src/bencode/` — the bencode format: a bounds-checked cursor, a strict
  decoder, an encoder, byte spans of a top-level dictionary's values, and a
  readable rendering. `spec.rs` holds the mathematical model; `laws.rs` and
  `spans.rs` prove that decoding an encoded value gives it back (for every
  well-formed value nested no deeper than the limit; every value built in
  code is well formed, and `Bencode::check_well_formed` proves it), that encoding decoded bytes gives them back when they are
  canonical (dictionary keys sorted and unique), and that a span's bytes
  decode to the value stored under its key.
- `src/bittorrent/` — torrent metadata, magnet links (with their peer
  address hints), hex, percent-decoding and the packed bitfield, each against an exact specification.
- `src/client/` — the downloader's decisions: its own bencode codec,
  metainfo, peer wire messages and handshake, piece bookkeeping, the
  engine that decides what to request from whom, the disk side (where a
  block goes, when a piece is complete, whether it matches its hash), the
  swarm of peers, tracker URLs and responses, and the peer id.
- `src/hashing.rs`, `src/text.rs` — SHA-1 and the standard library's text
  conversions, behind small trusted wrappers.
- `app/` — the program: files, sockets, HTTP and the async event loops,
  handing every decision to the library.
- `tests/` — tests on concrete values.
