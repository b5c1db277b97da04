# justext4

A pure-Rust ext4 image library, verified with Verus, and the `mkext4-rs`
command-line tool built on it.

## Layout

- `src/` — the verified library:
  - `le.rs` little-endian field access; `text.rs` UTF-8 helpers;
  - `superblock.rs`, `group_descriptor.rs`, `inode.rs`, `extent.rs`,
    `dir_entry.rs` — each on-disk structure with a decoder and an encoder
    whose contracts state the byte layout exactly, and the laws that
    decoding an encoding gives the value back;
  - `bitmap.rs` — bit access and the free-bit / free-run searches;
  - `mkfs.rs` — `format`: the bytes of a fresh single-group image (on
    1 KiB blocks the superblock fills block 1 and the rest of the layout
    follows it), the law that such an image opens with a root directory
    holding "." and "..", the law that formatting is reproducible (one
    configuration, one image), and the laws that on such an image, and
    after each `create_file` or `mkdir` in its root, everything these
    calls write lies apart, so their outcomes are fixed;
  - `filesystem.rs` — `Filesystem` over an in-memory image: open, inode
    reads, extent-tree mapping, file and directory reads, path lookup, and
    the write path (`create_file`, `mkdir`): when each succeeds, and the
    laws that what they write reads back, that the new entry is found in
    its parent, that what they allocate is marked in use, that a second
    file leaves the first readable, and that both are deterministic; on
    every image, including corrupt ones whose regions overlap, their
    result is that of running their steps in order, and such a run has
    one outcome;
  - `cli.rs` — the tool's usage text, option parsing, error type, and
    the step that decides what building from a host tree does with each
    host entry;
  - `error.rs` — `Ext4Error`.
- `app/` — the `mkext4-rs` binary: argument dispatch, file I/O, and the
  printable copies of the error types.
- `tests/` — the test suite.
