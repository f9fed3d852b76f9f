# seismic

Clustering of sparse vectors around randomly chosen centroids, with contracts proved by Verus.

- `src/kmeans.rs`: random k-means over document ids, in three variants: by scores that an inverted
  index of the centroids accumulates, by exact dot products with the centroids that a pruned index
  finds, and by exact dot products with all centroids. Clusters that come out too small are
  dissolved, and their documents are assigned once more.
- `src/assignment.rs`, `src/reassignment.rs`, `src/clusters.rs`: the steps of a clustering; that a
  second assignment needs only an index of the surviving centroids is proved in
  `src/reassignment.rs`.
- `src/inverted_index.rs`: the centroid index, one flat array of postings with an offset for each
  component, built with a counting sort.
- `src/selection.rs`, `src/sampling.rs`: the selection of the highest scored entries and the seeded
  choice of centroids, which `itertools` and `rand` make.
- `src/kheap.rs`: a heap that keeps the k smallest of the elements pushed to it.
- `src/quantization.rs`: scalar quantization of values to bytes.
- `src/float_bits.rs`, `src/arithmetic.rs`: single-precision values as bit patterns, and the
  operations on them that the caller supplies.
- `src/determinism.rs`: with arithmetic that gives one value for one input, a clustering is
  determined by its input, and documents are assigned independently of one another.
- `src/dissolution.rs`: what becomes of clusters that are too small.
- `src/agreement.rs`: when different ways to cluster agree.
- `app/`: the native arithmetic, the dot products, and entry points on `f32`.

A contract that speaks of what "may" be a result quantifies over all values that the caller's
arithmetic may return, by `call_ensures`. It holds for any implementation.
