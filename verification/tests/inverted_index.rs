use rand::seq::SliceRandom;
use rand::{Rng, SeedableRng};
use rand_chacha::ChaCha8Rng;
use seismic::inverted_index::{index_fits, FastInvertedIndex};
use seismic::{iter_components_values, FloatBits, SparseDataset, SparseVector};

fn bits(value: f32) -> FloatBits {
    FloatBits { bits: value.to_bits() }
}

fn vector(pairs: &[(usize, f32)]) -> SparseVector {
    SparseVector::new(
        pairs.iter().map(|pair| pair.0).collect(),
        pairs.iter().map(|pair| bits(pair.1)).collect(),
    )
}

fn scores(list: &[(u32, FloatBits)]) -> Vec<(u32, f32)> {
    list.iter().map(|entry| (entry.0, f32::from_bits(entry.1.bits))).collect()
}

#[test]
fn test_fast_inverted_index_matches_naive_build() {
    let seed = 42;
    let mut rng = ChaCha8Rng::seed_from_u64(seed);
    let n_vecs = 200;
    let dim = 500;

    let mut dataset = SparseDataset::new(dim);
    for _ in 0..n_vecs {
        let nnz = rng.random_range(10..=50);
        let mut components: Vec<usize> = (0..dim).collect();
        components.shuffle(&mut rng);
        components.truncate(nnz);
        components.sort_unstable();
        let values: Vec<FloatBits> = (0..nnz).map(|_| bits(rng.random::<f32>())).collect();
        dataset.push(SparseVector::new(components, values));
    }

    let centroid_doc_ids: Vec<usize> = (0..n_vecs).step_by(3).collect();
    let fast = FastInvertedIndex::new(&dataset, &centroid_doc_ids);

    let mut naive = vec![Vec::new(); dataset.input_dim()];
    for (centroid_slot, &centroid_doc_id) in centroid_doc_ids.iter().enumerate() {
        let posting = dataset.get(centroid_doc_id);
        for (c, score) in iter_components_values(posting) {
            naive[c].push((centroid_slot as u32, score));
        }
    }

    for c in 0..dataset.input_dim() {
        assert_eq!(
            fast.postings(c),
            naive[c].as_slice(),
            "mismatch at component {}",
            c
        );
    }
}

fn small_dataset() -> SparseDataset {
    let mut dataset = SparseDataset::new(4);
    dataset.push(vector(&[(0, 1.0), (2, 2.0)]));
    dataset.push(vector(&[(2, 5.0)]));
    dataset.push(vector(&[(0, 3.0), (2, -1.0), (3, 0.5)]));
    dataset.push(vector(&[]));
    dataset
}

#[test]
fn postings_are_listed_by_component_and_slot() {
    let index = FastInvertedIndex::new(&small_dataset(), &[2, 3, 1, 0]);
    assert_eq!(scores(index.postings(0)), vec![(0, 3.0), (3, 1.0)]);
    assert_eq!(scores(index.postings(1)), vec![]);
    assert_eq!(scores(index.postings(2)), vec![(0, -1.0), (2, 5.0), (3, 2.0)]);
    assert_eq!(scores(index.postings(3)), vec![(0, 0.5)]);
}

#[test]
fn a_centroid_that_occurs_twice_has_two_slots() {
    let index = FastInvertedIndex::new(&small_dataset(), &[1, 1]);
    assert_eq!(scores(index.postings(2)), vec![(0, 5.0), (1, 5.0)]);
}

#[test]
fn a_component_that_a_vector_repeats_is_listed_twice() {
    let mut dataset = SparseDataset::new(2);
    dataset.push(vector(&[(1, 4.0), (0, 2.0), (1, 3.0)]));
    let index = FastInvertedIndex::new(&dataset, &[0]);
    assert_eq!(scores(index.postings(0)), vec![(0, 2.0)]);
    assert_eq!(scores(index.postings(1)), vec![(0, 4.0), (0, 3.0)]);
}

#[test]
fn an_index_over_no_centroids_is_empty() {
    let index = FastInvertedIndex::new(&small_dataset(), &[]);
    for component_id in 0..4 {
        assert_eq!(index.postings(component_id).len(), 0);
    }
}

#[test]
fn pruning_keeps_the_highest_scores_in_descending_order() {
    let index = FastInvertedIndex::new(&small_dataset(), &[2, 3, 1, 0]).pruned(2);
    assert_eq!(scores(index.postings(0)), vec![(0, 3.0), (3, 1.0)]);
    assert_eq!(scores(index.postings(1)), vec![]);
    assert_eq!(scores(index.postings(2)), vec![(2, 5.0), (3, 2.0)]);
    assert_eq!(scores(index.postings(3)), vec![(0, 0.5)]);
}

#[test]
fn pruning_orders_by_the_total_order() {
    let mut dataset = SparseDataset::new(1);
    dataset.push(vector(&[(0, -0.0)]));
    dataset.push(vector(&[(0, f32::NEG_INFINITY)]));
    dataset.push(vector(&[(0, 0.0)]));
    dataset.push(vector(&[(0, f32::INFINITY)]));
    let index = FastInvertedIndex::new(&dataset, &[0, 1, 2, 3]).pruned(4);
    let slots: Vec<u32> = index.postings(0).iter().map(|entry| entry.0).collect();
    assert_eq!(slots, vec![3, 2, 0, 1]);
}

#[test]
fn pruning_to_nothing_empties_every_list() {
    let index = FastInvertedIndex::new(&small_dataset(), &[0, 1, 2]).pruned(0);
    for component_id in 0..4 {
        assert_eq!(index.postings(component_id).len(), 0);
    }
}

#[test]
fn pruned_slots_name_the_centroids_of_per_component_lists() {
    let dataset = small_dataset();
    let ids = [2, 3, 1, 0];
    let index = FastInvertedIndex::new(&dataset, &ids).pruned(2);
    let named: Vec<(usize, f32)> =
        scores(index.postings(2)).into_iter().map(|(slot, score)| (ids[slot as usize], score)).collect();
    assert_eq!(named, vec![(1, 5.0), (0, 2.0)]);
}

#[test]
fn small_indexes_fit() {
    assert!(index_fits(&small_dataset(), &[0, 1, 2, 3]));
    assert!(index_fits(&small_dataset(), &[]));
}

#[test]
fn posting_lists_hold_one_posting_for_each_stored_value() {
    let dataset = small_dataset();
    let ids = [2, 3, 1, 0, 2];
    let index = FastInvertedIndex::new(&dataset, &ids);
    let postings: usize = (0..4).map(|component_id| index.postings(component_id).len()).sum();
    let stored: usize = ids.iter().map(|&id| dataset.get(id).len()).sum();
    assert_eq!(postings, 9);
    assert_eq!(postings, stored);
}

#[test]
fn pruning_to_more_than_there_is_keeps_everything() {
    let index = FastInvertedIndex::new(&small_dataset(), &[2, 3, 1, 0]);
    for component_id in 0..4 {
        let pruned = index.pruned(3);
        let more = index.pruned(usize::MAX);
        assert_eq!(pruned.postings(component_id), more.postings(component_id));
        assert_eq!(pruned.postings(component_id).len(), index.postings(component_id).len());
    }
}
