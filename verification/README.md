# gsa_engine

A sorting engine for arrays of `f32`, written in Rust and proved with Verus.

Tiny arrays are sorted directly on one thread. Everything else is sorted by a parallel
least-significant-digit radix sort over monotonic integer keys. If calibration at startup
finds the GPU to be faster on the machine, large arrays are cut into buckets of ascending
value ranges instead, the buckets are sorted on the GPU by a bitonic network, and the sorted
buckets are written back one after the other, each reported as a progress frame.

## Layout

- `src/` is the verified library.
  - `float32`: which number a bit pattern stands for, and the keys of the radix sort
  - `radix`: the radix sort
  - `partition`, `buckets`: cutting an array into buckets, and putting it together again
  - `bitonic`, `kernels`, `gpu`: the bitonic network, the compute kernels that carry out its
    steps, and the list of dispatches that sorts a bucket
  - `sort`, `frames`: the choice of the strategy, the hybrid sort, and what a client sees of it
  - `autotune`: calibration
  - `server`, `conversation`: the steps of the conversation with a client, and what holds of a
    whole one
  - `allocator`: the scratch memory arena
  - `threadpool`, `parallel`: the thread pool's size, and the calls into rayon
  - `ratio`, `permutation`, `text`: fractions, rearranged sequences, decimal text
- `app/` is the program around the library: startup, the Metal device, the WebSocket server.
- `tests/` runs the library.

## What is proved

Every strategy leaves the elements that the array held, in ascending order. The radix sort's
result does not depend on how the work is split among threads. The list of dispatches for a
bucket does exactly what the bitonic network does, threadgroup by threadgroup, and the
network sorts. Padding a bucket does not disturb it. The progress frames of a run rebuild the
sorted array. The GPU is used only if one of its timed runs beat the radix sort. In a
conversation the requests are settled one for one and in order, and one that is not
understood is answered with what is wrong with it. Ranges handed out by the arena never
overlap, and no page of it is left at zero.

Numbers are held as bit patterns, and multipliers as fractions, so nothing in the library
rests on floating-point arithmetic. What the library believes of rayon, rand and the standard
library stands in the contracts of a few small functions marked `external_body` and
`assume_specification`, each with what it claims in its doc comment.
