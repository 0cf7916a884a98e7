# make_npdata_rs

Packs and unpacks EDAT and SDAT containers.

`src/` is a library verified with Verus. It works on bytes in memory and says in
its contracts what each operation returns, which inputs it refuses, and that
extracting a packed container gives the payload back.

- `npdata`: the two headers and the hashes that sign them
- `blocks`: how the payload is cut into blocks
- `pack`, `unpack`: the blocks of a container, written and read
- `hashes`: the hashes over headers and metadata, checked and forged
- `container`: whole containers
- `crypto`, `primitives`, `rap`: ciphers, tags and key derivation
- `lz`: the decompressor
- `bruteforce`: the search for a klicensee
- `cli`: what a command line asks for
- `image`, `util`, `constants`, `error`: files in memory, numbers and text,
  flags and keys, refusals

`app/` is the command line around it: files, the clock and the terminal. The
console's fixed keys are read from `keys.bin`, 272 bytes: the 17 fields of
`KeySet` in order, 16 bytes each.

```text
make_npdata [-v] -e <input> <output> <format> <data> <version> <compression> <block> [license type contentID key_mode [rap|rifkey.bin]]
make_npdata [-v] -d <input> <output> <key_mode> [rap|rifkey.bin]
make_npdata [-v] -b <input> <source> [mode]
make_npdata info <input>
make_npdata rap2rif <rap>
```
