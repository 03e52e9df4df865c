# r_delta

Delta synchronisation of files: the old version is described by the signatures of its chunks, the
new version is expressed as copies and literals against them, and the new version is rebuilt from
the old one. What the library does is stated in `requires` and `ensures` contracts and proved with
Verus.

## The library

| Module | What it holds |
|:--|:--|
| `chunker` | content-defined chunks of a stream |
| `signature`, `digest` | signatures of chunks, the signature file, the digests |
| `instruction`, `optimize`, `delta` | patch instructions, the patch file, deltas against signatures |
| `assembly`, `patch` | rebuilding a file, at once or read by read |
| `fixed` | the variant with chunks of one size and a rolling checksum |
| `verify` | comparing two files |
| `manifest`, `diff`, `text` | what a directory holds, and what brings another one up to date |
| `compression`, `crypto`, `hexadecimal`, `encryption`, `pipeline` | frames, encryption and keys |
| `protocol`, `batch`, `client`, `server` | messages, and both sides of a conversation |
| `bytes` | numbers as bytes |

The central statement is in `delta`: a delta that `DeltaGenerator::generate_delta` makes, written
to a patch file and applied with `patch::apply_patch` to the old file, gives the new file, unless
two different chunks have the same hashes and length. `fixed::delta` says the same of its variant.

Nothing in the library reads or writes files or talks to a network. Where it calls another crate
(BLAKE3, SHA-256, Zstandard, XChaCha20-Poly1305, hexadecimal digits, random numbers, differences
of paths), a function marked `#[verifier::external_body]` makes the call, and its doc comment says
what is taken for granted of it.

## The program

`app/` holds the program around the library: arguments, files, key files, directory walks,
connections over QUIC, and what is shown. `tests/` runs the library.
