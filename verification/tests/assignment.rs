use seismic::assignment::{accumulate_scores, last_maximum, scan_nearest, search_nearest};
use seismic::reassignment::select_surviving;
use seismic::{
    compute_centroid_assignments, compute_centroid_assignments_approx_dot_product,
    compute_centroid_assignments_dot_product, iter_components_values, FastInvertedIndex,
    FloatArithmetic, FloatBits, SparseDataset, SparseVector, VectorEncoder,
};
use std::cell::Cell;
use std::collections::HashSet;

fn bits(value: f32) -> FloatBits {
    FloatBits { bits: value.to_bits() }
}

fn value(float: FloatBits) -> f32 {
    f32::from_bits(float.bits)
}

struct Native;

impl FloatArithmetic for Native {
    fn add(&self, a: FloatBits, b: FloatBits) -> FloatBits {
        bits(value(a) + value(b))
    }

    fn sub(&self, a: FloatBits, b: FloatBits) -> FloatBits {
        bits(value(a) - value(b))
    }

    fn mul(&self, a: FloatBits, b: FloatBits) -> FloatBits {
        bits(value(a) * value(b))
    }

    fn div(&self, a: FloatBits, b: FloatBits) -> FloatBits {
        bits(value(a) / value(b))
    }

    fn from_usize(&self, n: usize) -> FloatBits {
        bits(n as f32)
    }

    fn to_usize(&self, a: FloatBits) -> usize {
        value(a) as usize
    }

    fn round_to_u8(&self, a: FloatBits) -> u8 {
        value(a).round() as u8
    }
}

/// Dot products, and how many of them were computed.
struct Counting {
    computed: Cell<usize>,
}

impl Counting {
    fn new() -> Self {
        Counting { computed: Cell::new(0) }
    }
}

impl VectorEncoder for Counting {
    type Evaluator = Vec<(usize, FloatBits)>;

    fn vector_evaluator(&self, vector: &SparseVector) -> Vec<(usize, FloatBits)> {
        iter_components_values(vector)
    }

    fn compute_distance(
        &self,
        evaluator: &Vec<(usize, FloatBits)>,
        vector: &SparseVector,
    ) -> FloatBits {
        self.computed.set(self.computed.get() + 1);
        let mut dot = 0.0;
        for (component, v) in iter_components_values(vector) {
            for entry in evaluator {
                if entry.0 == component {
                    dot += value(entry.1) * value(v);
                }
            }
        }
        bits(dot)
    }
}

fn dataset(dim: usize, vectors: &[&[(usize, f32)]]) -> SparseDataset {
    let mut dataset = SparseDataset::new(dim);
    for pairs in vectors {
        dataset.push(SparseVector::new(
            pairs.iter().map(|pair| pair.0).collect(),
            pairs.iter().map(|pair| bits(pair.1)).collect(),
        ));
    }
    dataset
}

fn small() -> SparseDataset {
    dataset(
        4,
        &[
            &[(0, 1.0), (2, 2.0)],
            &[(2, 5.0)],
            &[(0, 3.0), (3, 0.5)],
            &[(0, 2.0), (2, 1.0), (3, 4.0)],
            &[(1, 1.0)],
            &[(0, -1.0)],
        ],
    )
}

fn native(scores: &[FloatBits]) -> Vec<f32> {
    scores.iter().map(|&score| value(score)).collect()
}

#[test]
fn scores_add_up_over_the_terms() {
    let index = FastInvertedIndex::new(&small(), &[0, 1, 2]);
    let terms = [(0, bits(2.0)), (2, bits(10.0))];
    let scores = accumulate_scores(&Native, &terms, &index, 3);
    assert_eq!(native(&scores), vec![22.0, 50.0, 6.0]);
}

#[test]
fn scores_of_unmet_slots_are_zero() {
    let index = FastInvertedIndex::new(&small(), &[0, 1, 2]);
    assert_eq!(native(&accumulate_scores(&Native, &[], &index, 3)), vec![0.0, 0.0, 0.0]);
    assert_eq!(
        native(&accumulate_scores(&Native, &[(3, bits(8.0))], &index, 3)),
        vec![0.0, 0.0, 4.0]
    );
}

#[test]
fn scores_accumulate_in_the_order_of_the_terms() {
    let data = dataset(3, &[&[(0, 1.0), (1, 1.0), (2, 1.0)]]);
    let index = FastInvertedIndex::new(&data, &[0]);
    let large = bits(16_777_216.0);
    let small_first = [(0, bits(1.0)), (1, bits(1.0)), (2, large)];
    let large_first = [(2, large), (0, bits(1.0)), (1, bits(1.0))];
    assert_eq!(native(&accumulate_scores(&Native, &small_first, &index, 1)), vec![16_777_218.0]);
    assert_eq!(native(&accumulate_scores(&Native, &large_first, &index, 1)), vec![16_777_216.0]);
}

#[test]
fn the_last_of_several_maxima_is_found() {
    let maximum = |values: &[f32]| {
        last_maximum(&values.iter().map(|&v| bits(v)).collect::<Vec<FloatBits>>())
    };
    assert_eq!(maximum(&[1.0, 3.0, 2.0, 3.0, 0.0]), 3);
    assert_eq!(maximum(&[7.0]), 0);
    assert_eq!(maximum(&[0.0, -0.0]), 0);
    assert_eq!(maximum(&[-0.0, 0.0, -0.0]), 1);
    assert_eq!(maximum(&[1.0, f32::NAN, f32::INFINITY]), 1);
}

#[test]
fn documents_go_to_the_centroid_that_scores_highest() {
    let data = small();
    let centroids = [0, 1, 2];
    let index = FastInvertedIndex::new(&data, &centroids);
    let assigned = compute_centroid_assignments_approx_dot_product(
        &[3, 1, 2],
        &index,
        &data,
        &centroids,
        10,
        &Native,
    );
    assert_eq!(assigned, vec![(2, 3), (1, 1), (2, 2)]);
}

#[test]
fn only_the_highest_components_of_a_document_are_scored() {
    let data = dataset(
        3,
        &[&[(0, 10.0)], &[(1, 1.0)], &[(0, 1.0), (1, 2.0)]],
    );
    let centroids = [0, 1];
    let index = FastInvertedIndex::new(&data, &centroids);
    let assign = |doc_cut: usize| {
        compute_centroid_assignments_approx_dot_product(
            &[2],
            &index,
            &data,
            &centroids,
            doc_cut,
            &Native,
        )
    };
    assert_eq!(assign(1), vec![(1, 2)]);
    assert_eq!(assign(2), vec![(0, 2)]);
}

#[test]
fn a_document_that_meets_no_centroid_goes_to_the_last_one() {
    let data = small();
    let centroids = [0, 1, 2];
    let index = FastInvertedIndex::new(&data, &centroids);
    let assigned = compute_centroid_assignments_approx_dot_product(
        &[4],
        &index,
        &data,
        &centroids,
        10,
        &Native,
    );
    assert_eq!(assigned, vec![(2, 4)]);
}

#[test]
fn surviving_centroids_keep_their_order() {
    assert_eq!(select_surviving(&[5, 2, 9, 2, 7], &HashSet::from([9, 5])), vec![2, 2, 7]);
    assert_eq!(select_surviving(&[5, 2], &HashSet::from([2, 5])), vec![]);
    assert_eq!(select_surviving(&[], &HashSet::new()), vec![]);
}

#[test]
fn a_search_finds_the_nearest_centroid_that_the_terms_meet() {
    let data = small();
    let centroids = [0, 1, 2];
    let index = FastInvertedIndex::new(&data, &centroids);
    let search = |terms: &[(usize, FloatBits)], to_avoid: &HashSet<usize>| {
        search_nearest(3, terms, &index, &data, &centroids, to_avoid, &Counting::new())
    };
    // The dot products of document 3 with the centroids are 4, 5 and 8.
    assert_eq!(search(&[(0, bits(2.0)), (2, bits(1.0))], &HashSet::new()), 2);
    assert_eq!(search(&[(2, bits(1.0))], &HashSet::new()), 1);
    assert_eq!(search(&[(0, bits(2.0)), (2, bits(1.0))], &HashSet::from([2])), 1);
    assert_eq!(search(&[(0, bits(2.0))], &HashSet::from([2])), 0);
    assert_eq!(search(&[(0, bits(2.0))], &HashSet::from([0, 2])), 0);
    assert_eq!(search(&[], &HashSet::new()), 0);
}

#[test]
fn a_search_visits_each_centroid_once() {
    let data = small();
    let centroids = [0, 2, 3];
    let index = FastInvertedIndex::new(&data, &centroids);
    let encoder = Counting::new();
    let terms = [(0, bits(1.0)), (2, bits(1.0)), (3, bits(1.0))];
    search_nearest(3, &terms, &index, &data, &centroids, &HashSet::from([2]), &encoder);
    assert_eq!(encoder.computed.get(), 2);
}

#[test]
fn the_first_of_equally_near_centroids_is_chosen() {
    let data = dataset(2, &[&[(0, 1.0)], &[(0, 1.0)], &[(0, 1.0), (1, 1.0)]]);
    let centroids = [1, 0];
    let index = FastInvertedIndex::new(&data, &centroids);
    let terms = [(0, bits(1.0))];
    let none = HashSet::new();
    assert_eq!(
        search_nearest(2, &terms, &index, &data, &centroids, &none, &Counting::new()),
        1
    );
    assert_eq!(scan_nearest(2, &data, &centroids, &none, &Counting::new()), 1);
}

#[test]
fn a_centroid_without_a_positive_dot_product_is_not_nearest() {
    let data = small();
    let none = HashSet::new();
    assert_eq!(scan_nearest(5, &data, &[4, 0, 2], &none, &Counting::new()), 4);
    assert_eq!(scan_nearest(3, &data, &[4, 0, 2], &none, &Counting::new()), 2);
}

#[test]
fn a_dot_product_that_is_no_number_is_never_nearest() {
    let data = dataset(1, &[&[(0, f32::NAN)], &[(0, 1.0)], &[(0, 2.0)]]);
    let none = HashSet::new();
    assert_eq!(scan_nearest(2, &data, &[0, 1], &none, &Counting::new()), 1);
    assert_eq!(scan_nearest(0, &data, &[2, 1], &none, &Counting::new()), 2);
}

#[test]
fn a_centroid_keeps_its_own_document() {
    let data = small();
    let centroids = [0, 1];
    let index = FastInvertedIndex::new(&data, &centroids);
    let assigned = compute_centroid_assignments_dot_product(
        &[0, 1, 3],
        &index,
        &data,
        &centroids,
        &HashSet::new(),
        10,
        &Counting::new(),
    );
    assert_eq!(assigned, vec![(0, 0), (1, 1), (1, 3)]);
    let scanned =
        compute_centroid_assignments(&[0, 1, 3], &data, &centroids, &HashSet::new(), &Counting::new());
    assert_eq!(scanned, assigned);
}

#[test]
fn an_avoided_centroid_loses_its_document() {
    let data = small();
    let centroids = [1, 0];
    let index = FastInvertedIndex::new(&data, &centroids);
    let assigned = compute_centroid_assignments_dot_product(
        &[0, 1],
        &index,
        &data,
        &centroids,
        &HashSet::from([0]),
        10,
        &Counting::new(),
    );
    assert_eq!(assigned, vec![(1, 0), (1, 1)]);
}

#[test]
fn a_scan_passes_over_avoided_centroids() {
    let data = small();
    // The dot products of document 3 with documents 0, 1 and 2 are 4, 5 and 8.
    let scan = |to_avoid: &HashSet<usize>| {
        let encoder = Counting::new();
        let nearest = scan_nearest(3, &data, &[0, 1, 2], to_avoid, &encoder);
        (nearest, encoder.computed.get())
    };
    assert_eq!(scan(&HashSet::new()), (2, 3));
    assert_eq!(scan(&HashSet::from([2])), (1, 2));
    assert_eq!(scan(&HashSet::from([1, 2])), (0, 1));
    assert_eq!(scan(&HashSet::from([0, 1, 2])), (0, 0));
    let scanned = compute_centroid_assignments(
        &[2, 0],
        &data,
        &[0, 2],
        &HashSet::from([2]),
        &Counting::new(),
    );
    assert_eq!(scanned, vec![(0, 2), (0, 0)]);
}

#[test]
fn no_documents_need_no_centroids() {
    let data = small();
    let index = FastInvertedIndex::new(&data, &[]);
    let none = HashSet::new();
    assert_eq!(
        compute_centroid_assignments_approx_dot_product(&[], &index, &data, &[], 3, &Native),
        vec![]
    );
    assert_eq!(
        compute_centroid_assignments_dot_product(
            &[],
            &index,
            &data,
            &[],
            &none,
            3,
            &Counting::new()
        ),
        vec![]
    );
    assert_eq!(compute_centroid_assignments(&[], &data, &[], &none, &Counting::new()), vec![]);
}

#[test]
fn an_index_may_have_more_lists_than_the_documents_have_components() {
    let wide = dataset(6, &[&[(0, 1.0), (5, 3.0)], &[(1, 2.0)]]);
    let narrow = dataset(2, &[&[(0, 1.0)], &[(1, 1.0)], &[(0, 2.0), (1, 1.0)]]);
    let centroids = [0, 1];
    let index = FastInvertedIndex::new(&wide, &centroids);
    assert_eq!(
        compute_centroid_assignments_approx_dot_product(
            &[2, 1],
            &index,
            &narrow,
            &centroids,
            5,
            &Native
        ),
        vec![(1, 2), (1, 1)]
    );
    assert_eq!(
        compute_centroid_assignments_dot_product(
            &[2, 1],
            &index,
            &narrow,
            &centroids,
            &HashSet::new(),
            5,
            &Counting::new()
        ),
        vec![(0, 2), (1, 1)]
    );
}

#[test]
fn documents_are_assigned_independently_of_one_another() {
    let data = small();
    let centroids = [0, 1, 2];
    let index = FastInvertedIndex::new(&data, &centroids);
    let avoided = HashSet::from([1]);
    let by_score = |docs: &[usize]| {
        compute_centroid_assignments_approx_dot_product(
            docs, &index, &data, &centroids, 2, &Native,
        )
    };
    let by_search = |docs: &[usize]| {
        compute_centroid_assignments_dot_product(
            docs,
            &index,
            &data,
            &centroids,
            &avoided,
            2,
            &Counting::new(),
        )
    };
    let exhaustively = |docs: &[usize]| {
        compute_centroid_assignments(docs, &data, &centroids, &avoided, &Counting::new())
    };
    let (docs, more_docs, all_docs) = ([3, 5, 1], [4, 3, 0], [3, 5, 1, 4, 3, 0]);
    assert_eq!([by_score(&docs), by_score(&more_docs)].concat(), by_score(&all_docs));
    assert_eq!([by_search(&docs), by_search(&more_docs)].concat(), by_search(&all_docs));
    assert_eq!([exhaustively(&docs), exhaustively(&more_docs)].concat(), exhaustively(&all_docs));
}

#[test]
fn leaving_out_a_centroid_that_did_not_win_changes_no_assignment() {
    let data = dataset(
        2,
        &[&[(0, 1.0)], &[(0, 1.0)], &[(1, 3.0)], &[(0, 1.0), (1, 1.0)], &[(0, 2.0)]],
    );
    let assign = |centroids: &[usize]| {
        let index = FastInvertedIndex::new(&data, centroids);
        compute_centroid_assignments_approx_dot_product(
            &[3, 4, 0],
            &index,
            &data,
            centroids,
            5,
            &Native,
        )
    };
    assert_eq!(assign(&[0, 1, 2]), vec![(2, 3), (1, 4), (1, 0)]);
    assert_eq!(assign(&[1, 2]), vec![(2, 3), (1, 4), (1, 0)]);
    assert_eq!(assign(&[0, 1]), vec![(1, 3), (1, 4), (1, 0)]);
}
