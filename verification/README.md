# embedded-sdmmc

FAT16 and FAT32 volumes on a block device, written in Rust and verified with
[Verus](https://github.com/verus-lang/verus).

* `src/` is the library. What it computes stands in functions with contracts that
  are proved; the calls out of it, and what a device or a visitor does, are taken on
  trust, as said below.
* `tests/` runs it on volumes in memory, with and without failing transfers.
* `app/` formats volumes and their labels for display.

The calls into `byteorder` and `heapless` stand in small functions of their own
(`src/bytes.rs`, `src/collections.rs`), and so do those into the standard library
that have no specification (`src/long_name.rs`, `src/lfn_buffer.rs`). Their
contracts are taken on trust.

What is taken on trust of a device is written down at `BlockDevice` in
`src/block.rs`: blocks are transferred whole, and the failed write of a block
changes nothing. A `TimeSource` may give any time. The visitors that are shown the
entries of a directory say for themselves what they learn from them.
