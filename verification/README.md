# lxmf_core

Message delivery, storage and propagation for LXMF, the Lightweight Extensible Message
Format, with its logic verified by Verus.

- `src/` is the library. Every function states what it computes and is proved to do so. The
  proof functions under "What holds of every node" and the like state what holds across
  functions. MessagePack, Base64, SHA-256 and Ed25519 come from outside crates; the few
  functions that call them carry contracts that are taken on trust, and say so.
- `tests/` runs the library with those crates.
- `app/` is the unverified rest: the clock, files, the SQLite backend, threads, callbacks and
  the loops that drive links. A program that embeds the library supplies links, packets and
  identities through the traits `LinkRuntime`, `Link` and `RatchetPlatform`.

Instants are microseconds since the Unix epoch. The time in a message is the bit pattern of
the 64-bit number that travels on the wire. Progress is counted in millionths.

A proof of work is found and weighed by functions that the caller passes in.
