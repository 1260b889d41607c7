# basedrop

Smart pointers whose contents are not destroyed where the last pointer goes out
of use, but later, by a collector that may run on another thread.

- `Owned<T>` is analogous to `Box`, `Shared<T>` to `Arc`; a `SharedCell<T>` is a
  memory location that holds a `Shared<T>` and that many threads read and few
  write.
- What is given up goes to the drop queue of the collector it was allocated for,
  and stays allocated, contents unchanged, until that collector is asked to
  collect.

## Layout

`src/` is the library, verified with Verus. Shared memory is an explicit value
there, the `Heap`: an operation that reads or changes it takes it as an argument,
and its contract says what becomes of every node. A heap has contents of one type;
several kinds of contents are an `enum`, and contents that hold pointers
themselves are taken apart with `Collector::collect_one`. What comes from a heap
carries its tag in ghost state, and no contract says how the tags of two heaps
compare, so a pointer or a handle cannot be shown to be valid for another heap.
Pointers and cells are given up by a call that takes the heap; one that just goes
out of scope leaves its node allocated.

- `heap`: nodes, reference counts and drop queues.
- `collector`, `owned`, `shared`, `shared_cell`: the types.
- `steps`: the decisions of a cell's readers and writers, and of a pointer that is
  given up, one access to shared memory at a time.
- `world`: everything that can happen to a heap, and the invariant that every
  interleaving of steps keeps. `tally` counts who is where.
- `laws`: what follows, stated one promise at a time.

`app/` runs the same decisions on raw pointers and atomics, with the traits that
smart pointers have (`Deref`, `Clone`, `Drop`, `Send`, `Sync`). The memory orders
are chosen there; the proofs are about sequentially consistent interleavings.

`tests/` runs the library, some of it under loom.
