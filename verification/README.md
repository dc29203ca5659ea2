# RAVEN

A graph index for approximate nearest neighbour search, in Rust, verified with
[Verus](https://github.com/verus-lang/verus).

An index is a Vamana graph over vectors of single-precision numbers. It is built by searching the
graph for every node, pruning what was seen to a few neighbours and connecting them in both
directions. Queries walk the graph greedily from an entry point, or down through layers to one.

## Layout

- `src/distance/` IEEE single-precision arithmetic on bit patterns, distances with one, eight or
  sixteen lanes, half-precision numbers, the choice of a kernel.
- `src/memory/` the graph storage (blocks of a fixed width with overflow lists), the set of visited
  nodes, the index file format, query buffers.
- `src/graph/` candidate pools, greedy searches, the prunings, building, layers, the searcher, and
  the analyses of edge lengths and errors.
- `src/build/` random numbers, the record of a build, the build pipeline.
- `src/config/` settings, the rules they have to keep, the parameter grid, a benchmark.
- `src/evaluation/` vector files, recall, the settings of the programs.
- `tests/` tests on concrete values.
- `app/` what needs floating point, threads, files, the environment or Python.

## How it is specified

Every function states what it returns over mathematical values: numbers are patterns whose value is
an integer multiple of `2^-149`, graphs are sequences of neighbour lists, searches are state
machines over a pool and a set of visited nodes. The modules whose names end in `laws` state what
holds of several functions together: that a search returns the nearest nodes it has seen and ends,
that a pruning keeps candidates only, keeps the nearest one and leaves no kept neighbour occluded,
that an index that was written is read back, that a distance is symmetric.

Distances go through the trait `DistanceKernel`, so that searches and builds run with whatever
kernel a machine has; the kernels of the library compute with integers alone, and `app/` has one in
native arithmetic. Powers, exponentials and logarithms differ between machines in their last bit,
and a build's record is text in a form of the caller's choosing: functions for these are handed in,
and the contracts speak of what they return.

Random numbers come from `rand_chacha`, checksums from `crc32fast`, aligned memory from
`aligned-vec`, byte casts from `bytemuck`. What is assumed of each stands above the function that
calls it.
