# cowfile

A copy-on-write abstraction for binary data backed by memory or files, verified with
[Verus](https://github.com/verus-lang/verus).

`CowFile` wraps binary data with a pending write log. The committed buffer is a `Vec<u8>` or a
copy-on-write memory map. Writes accumulate in the log; `data()` shows the committed bytes,
`read()` composites the pending writes over them, `commit()` applies the log to the buffer and
`discard()` drops it. `Overlay` does the same for a base that is never touched, with two sparse
layers of modifications.

```rust
use cowfile::CowFile;

let mut file = CowFile::from_vec(vec![0u8; 1024]);
file.write(0x10, &[0xFF, 0xFE]).unwrap();
assert_eq!(file.data()[0x10], 0x00);
assert_eq!(file.read_byte(0x10).unwrap(), 0xFF);

file.write_le::<u32>(0x20, 0xDEADBEEF).unwrap();
file.commit().unwrap();
assert_eq!(file.data()[0x10], 0xFF);
assert_eq!(file.read_le::<u32>(0x20).unwrap(), 0xDEADBEEF);
```

## Layout

- `src/` is the library. Verus proves the contract of every function but the wrappers around
  `memmap2` (see below).
  - `cowfile.rs`, `buffer.rs`, `pending.rs`: the file, its committed buffer and its pending log.
  - `cursor.rs`: sequential access, with a position per cursor.
  - `primitives.rs`, `endian.rs`, `traits.rs`: typed values and their bytes.
  - `overlay.rs`, `layer.rs`, `trim.rs`, `merge.rs`, `runs.rs`: the overlay and its layers.
  - `backend.rs`: immutable base data.
  - `error.rs`: errors and their messages.
  - `mapping.rs`: what is taken for granted of memory maps.
  - `laws.rs`: what holds across operations, such as that a commit changes nothing of what reads
    see.
- `app/` opens, maps and writes files, puts the pending log behind a lock so that threads can
  share a file, and implements the standard I/O traits.
- `tests/` runs the library.

## What is taken for granted

The contracts rest on the bytes of a memory map staying as they are but for writes through it, and
on `memmap2` handing out those bytes.
