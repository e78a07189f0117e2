# Kosa

A page-based storage engine with fire-and-forget durability semantics, with the parts that decide
and compute verified in Verus.

* `src/bitmap/` says which slots of the storage are taken: rows of 256 slots (`row.rs`, `simd.rs`),
  pages of seven rows (`page.rs`), the order in which pages are searched (`scan.rs`) and the whole
  bitmap (`mod.rs`). `slots.rs` gives its meaning as a set of slot numbers; `laws.rs` states what
  holds of every sequence of allocations and frees.
* `src/block.rs` turns records into checksummed blocks and back, and states which damage to a
  block is always noticed.
* `src/engine.rs` joins the two and states that what was written is read.
* `src/checksum.rs`, `src/buffer_size.rs` and `src/hints.rs` say what is taken on trust of
  `frozen_core`; `checksum.rs` also defines CRC32C and states which changes it tells apart.
* `app/` opens the files, maps the bitmap and runs the write pipeline.
