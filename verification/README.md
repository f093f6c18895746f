# orthotope

A general-purpose memory allocator over one fixed arena, written in Verus: its operations
carry contracts that Verus proves.

Requests of up to 16 MiB are served from twelve size classes through a cache per thread and a
pool shared by all caches; larger ones get a block of their own, and freed large blocks are
used again by best fit. Every block starts with a 64-byte header in front of the address that
is handed out, and free small blocks are linked through a word of it. Memory that was handed
out is not handed out again before it was freed, and freeing it a second time before it is
handed out again is an error and changes nothing. That holds while programs write only to the
bytes of their live allocations. The system may take the pages of an idle slab meanwhile: it
still holds as long as each of these pages keeps its bytes or reads as zeros.

## Layout

- `src/` is the verified library. `allocator.rs` ties together `arena.rs`, `thread_cache.rs`
  (over `class_cache.rs` and `local_slab.rs`), `central_pool.rs` (over `class_pool.rs`) and
  `large_object.rs`. `laws.rs` and `heap.rs` state what holds across several calls.
- `tests/` runs the library on concrete values.
- `app/` is the code around it: locks and thread-local caches, the `GlobalAlloc` impl, calls
  into the system, and the benchmark programs.

## What the proofs rest on

The arena is an anonymous mapping from `memmap2`. That a mapping keeps its bytes until they
are written, and what `str::trim` and `str::parse` return, is taken from those functions'
documentation; the items concerned are marked `external_body` and say so.

Programs write to the memory that they were handed through raw pointers. No proof depends on
the bytes there, only on those of headers and of blocks that are not handed out.
