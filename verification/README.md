# ferrum-alloc

A memory allocator with verified contracts. Requests are routed by size:

- up to 1 KB: slab allocators of size classes, one per thread
- below 256 KB: a TLSF pool (two-level segregated fit) with boundary tags, and
  whole pages of the arena once the pool has no room
- from 256 KB on: a mapping of its own

A small block that another thread gives back goes onto the owner's stack, which
the owner empties into its pages before its next small allocation. Whole pages
that are given back are kept as spare runs, and are handed out again.

## Layout

- `src/` is the allocator. Memory is a `Region`: an address and the bytes from
  there on. The operating system is not called: each function takes the
  mappings that were granted and returns what is to be unmapped.
  - `memory`, `platform`: regions, rounding, thread-local tables
  - `size_class`, `arena`, `slab`: pages and slots
  - `tlsf`: the pool; `bins` and `bitmap` index it, `header` is the layout of
    its tags, `model` and `laws` say what it does
  - `huge`, `thread_cache`: direct mappings, caches and their stacks
  - `api`: the heap; `runs` keeps its runs of whole pages, `model` is its
    abstract state, `laws` what holds of it
  - `dllmain`: what hooks on a process's heap functions answer
- `tests/` runs it on concrete values.
- `app/` maps memory, holds the process's heap behind a lock, and exports
  `malloc`, `free`, `calloc`, `realloc`, `posix_memalign` and the `ferrum_*`
  functions.

## Laws

The central ones are public proof functions in `src/api/laws.rs`: blocks that
the client holds are disjoint, an allocation hands out a new block and keeps
all others, giving it back undoes it and makes room for the next one, a block
given back by another thread waits for its owner, and threads allocate small
blocks from pages of their own. Those of the pool are in `src/tlsf/laws.rs`: in
particular, once everything has been given back, in any order, the pool is as it
was when it was added.
