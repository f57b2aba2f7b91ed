# aethergraph-core

Graphs in compressed sparse rows, node features, and the caches and queues that
bring them to a device, as a Verus library.

- `src/graph` builds, validates, renumbers and partitions graphs.
- `src/storage` reads and writes the graph file formats.
- `src/features` reads and writes feature files, plans reads from them, and holds
  the cache tiers.
- `src/internal` has the helpers that the rest shares, and the device command and
  queue formats.
- `app` holds the files, mappings, sockets and devices around the library, and
  everything that is computed in floating point.

Feature values and edge weights are bit patterns in the library: it moves, stores
and widens them, and never calculates with them.

Functions that lead up to a transfer return the transfers to make; functions that
follow one take the bytes that came back. Properties that relate several functions
are the public proof functions whose names begin with `law_`.
