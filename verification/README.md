# nix-archive

Byte-safe encoding, decoding, hashing, reference scanning, and restoration of
Nix archives (NAR), verified with [Verus](https://github.com/verus-lang/verus).

Names, symlink targets, and file contents are raw bytes throughout. The library
never touches the filesystem: whatever does is in `app/`, around state machines
of the library that say what to look at or to create next.

## Layout

The format and what holds of it:

- `model`: trees, their archives, the walks over them.
- `grammar`: what a decoder owes for a sequence of bytes, from a slice or from a
  stream.
- `roundtrip`, `runs`, `laws`, `agreement`, `truncation`: decoding undoes
  encoding, whatever is accepted is canonical, whatever is finished is an
  archive, the two decoders agree, and every truncation is an error.

Reading and writing:

- `io`, `wire`: sources and sinks, tokens.
- `dec`, `entries`: `decode_events`, `decode_events_reader`, `decode`,
  `decode_for`.
- `encoder`, `tree`: `Encoder`, `encode_tree`, `encode_regular`.
- `hash`, `refscan`: SHA-256 of an archive, store-path references in it.
- `names`, `decimal`, `message`, `nar`: names of entries, errors and their texts,
  and the names that callers use.

Filesystem trees:

- `case_hack`, `listing`, `paths`, `walk`: from a tree on disk to its archive.
- `restore`: from the events of an archive to what is to be created.
- `restored_names`, `disk_laws`, `walk_laws`, `scan_laws`: what is restored reads
  back as it was, a walk over a tree writes the archive of that tree, restoring
  from a slice and from a stream ask for the same, and encoding, hashing and
  scanning a tree agree.

## What is not proved

Contracts take these on trust, each where it is called: `std::str::from_utf8`,
`String::from_utf8_lossy` and the `Debug` form of a string (`names`, `message`),
`Arc::clone` (`refscan`), and the SHA-256 of the `sha2` crate (`hash`). What a
mode means is decided in `walk`; that the mode is that of the file is up to
`app/`. A sink, a source, or a visitor that
is written outside of the library is held to the contracts of `ByteSink`,
`ByteSource`, `EventVisitor`, and `ReadVisitor` by nothing but its author.
