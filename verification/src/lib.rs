//! Clustering of sparse vectors around randomly chosen centroids, as an inverted index over sparse
//! embeddings needs it to cut its posting lists into blocks.
//!
//! The functions of [`kmeans`] assign documents to centroids, dissolve the clusters that come out
//! too small and assign their documents once more. They differ in how a document is compared with
//! the centroids: by scores that a [`FastInvertedIndex`] of the centroids accumulates, by exact dot
//! products with the centroids that a pruned index finds, or by exact dot products with all of
//! them. [`KHeap`] keeps the smallest of the elements pushed to it, and [`quantize`] turns values
//! into bytes.
//!
//! Floating-point values are held by their bit patterns, as [`FloatBits`]. The caller supplies the
//! arithmetic, as a [`FloatArithmetic`], and the exact dot products, as a [`VectorEncoder`]; the
//! contracts hold for whatever these return.

pub mod agreement;
pub mod arithmetic;
pub mod assignment;
pub mod clusters;
pub mod dataset;
pub mod determinism;
pub mod dissolution;
pub mod float_bits;
pub mod inverted_index;
pub mod kheap;
pub mod kmeans;
pub mod nearest;
pub mod order;
pub mod outcome;
pub mod quantization;
pub mod reassignment;
pub mod sampling;
pub mod scoring;
pub mod selection;

pub use arithmetic::{FloatArithmetic, VectorEncoder};
pub use assignment::{
    compute_centroid_assignments, compute_centroid_assignments_approx_dot_product,
    compute_centroid_assignments_dot_product,
};
pub use dataset::{iter_components_values, SparseDataset, SparseVector};
pub use float_bits::FloatBits;
pub use inverted_index::FastInvertedIndex;
pub use kheap::KHeap;
pub use kmeans::{
    do_random_kmeans_on_docids, do_random_kmeans_on_docids_ii_approx_dot_product,
    do_random_kmeans_on_docids_ii_dot_product, try_random_kmeans_on_docids_ii_approx_dot_product,
    try_random_kmeans_on_docids_ii_dot_product,
};
pub use quantization::quantize;
