# hnsw

A hierarchical navigable small-world graph for approximate nearest-neighbour search,
written in Verus.

- `src/` is the verified library: the graph (`index`), greedy search on one layer and
  down the layers (`search`), neighbour selection and pruning (`select`), insertion
  (`insert`), the order kept among candidates (`order`), the distance callbacks and the
  distances they stand for (`oracle`), and the metrics with the order key of a measured
  distance (`metric`).
- `app/` is the program around it: it stores the vectors, measures distances in floating
  point (each distance reaches the graph as the bit pattern of its `f32`), normalises
  vectors for the cosine metric and draws random levels.
- `tests/` builds small indexes and checks their lists and search results.

The library never sees a vector. Every operation takes a callback that returns the bit
pattern of an `f32` distance between two nodes (or between a node and the query), and its
contract is stated over the distances that callback reports. Searching and pruning order
distances by the total order of floats (`metric::distance_key`); neighbour selection
compares them with the IEEE `<` (`metric::float_lt`), under which a NaN is never nearer.
