# easy_alloc

A memory allocator with one allocator per thread, whose bookkeeping is verified with Verus.

Memory comes from the operating system in regions. A region splits into common chunks of 64 KiB
and large chunks of 512 KiB; a chunk is carved into objects of one size class. Free objects wait in
vectors, one per class, and the vectors themselves live in memory of the allocator that they serve.
A pointer that another thread frees travels back to its owner in a node.

## Layout

- `src/` is the verified library. It makes no system calls. An `os::Environment` holds the answers
  of the operating system and collects what is to be done: memory to commit and to give back,
  messages to deliver. Whoever finds a request pending answers it and repeats the operation.
- `app/` performs the requests with `libc`, keeps one allocator per thread, ends it with its thread
  and offers it as a global allocator.
- `tests/` runs the library.

## Where to read on

- `sizes`, `powers`: size classes and how sizes are rounded.
- `os`, `region`, `limit`: mappings, regions and the limit on them.
- `state`: memory for the allocator's own structures while they are being built.
- `inner`, `accounts`, `steps`: the bookkeeping and its accounts. Every operation states a bound on
  the memory that is held after it, so that no byte is ever held twice, and on the numbers of objects
  that are out.
- `placement`, `ownership`: where chunks lie, and that an allocator owns what it holds and what it
  hands out, so that every object can be given back.
- `allocation`, `deallocation`, `carving`, `chunks`, `vectors`, `manager`, `incoming`: the operations.
- `preparation`, `takeover`, `commitment`: how a state becomes part of the allocator.
- `info_for_size`, `stats`, `destruction`: what an allocator tells of itself, and how it ends.
- `self_box`, `self_vec`, `btree_map`, `map_entries`, `vec_in_os`: structures that live in memory of
  an allocator, or in a mapping of their own.
- `laws`: what holds over several operations, first of all that no two blocks that are out overlap.

`chunk_buffer` and `hints` are the only modules that rest on contracts of another crate,
`orengine-utils`; each function there says what it takes for granted.
