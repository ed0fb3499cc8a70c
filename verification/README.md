# meshopt

Vertex transform cache analysis and optimization of triangle meshes, verified with Verus.

* `src/mesh.rs`: index buffers, reorderings, and what it means to keep every triangle.
* `src/vertex/analyze.rs`: simulation of a first-in first-out vertex cache.
* `src/vertex/greedy.rs`: greedy reordering by vertex scores, with two tuned score tables.
* `src/vertex/fifo.rs`: reordering for a first-in first-out cache.
* `src/vertex/adjacency.rs`: the triangles around each vertex.
* `src/vertex/score.rs`: scores as binary floating-point numbers of 24 significant bits, in
  integer arithmetic.
* `src/vertex/drift.rs`: how far rounding lets triangle scores drift.
* `src/vertex/renumber.rs`: what vertex numbers matter for.
* `src/vertex/groups.rs`: statistics of a buffer in parts.
* `src/vertex/cache.rs`: the public functions under one path.
* `src/util.rs`: helpers on slices and byte buffers.
* `app/`: the same functions with their conditions checked at run time and their ratios as
  floating-point numbers.
