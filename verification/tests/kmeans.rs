use itertools::Itertools;
use rand::rngs::StdRng;
use rand::seq::{IndexedRandom, IteratorRandom};
use rand::{Rng, SeedableRng};
use rand_chacha::ChaCha8Rng;
use seismic::kmeans::{
    choose_dot_product_centroids, choose_score_centroids, cluster_by_score, cluster_by_search,
    cluster_exhaustively, pruned_list_size,
};
use seismic::{
    do_random_kmeans_on_docids, do_random_kmeans_on_docids_ii_approx_dot_product,
    do_random_kmeans_on_docids_ii_dot_product, iter_components_values,
    try_random_kmeans_on_docids_ii_approx_dot_product, try_random_kmeans_on_docids_ii_dot_product,
    FloatArithmetic, FloatBits, SparseDataset, SparseVector, VectorEncoder,
};
use std::collections::{HashMap, HashSet};

fn bits(value: f32) -> FloatBits {
    FloatBits { bits: value.to_bits() }
}

fn value(float: FloatBits) -> f32 {
    f32::from_bits(float.bits)
}

struct Native;

impl FloatArithmetic for Native {
    fn add(&self, a: FloatBits, b: FloatBits) -> FloatBits {
        bits(value(a) + value(b))
    }

    fn sub(&self, a: FloatBits, b: FloatBits) -> FloatBits {
        bits(value(a) - value(b))
    }

    fn mul(&self, a: FloatBits, b: FloatBits) -> FloatBits {
        bits(value(a) * value(b))
    }

    fn div(&self, a: FloatBits, b: FloatBits) -> FloatBits {
        bits(value(a) / value(b))
    }

    fn from_usize(&self, n: usize) -> FloatBits {
        bits(n as f32)
    }

    fn to_usize(&self, a: FloatBits) -> usize {
        value(a) as usize
    }

    fn round_to_u8(&self, a: FloatBits) -> u8 {
        value(a).round() as u8
    }
}

fn pairs(vector: &SparseVector) -> Vec<(usize, f32)> {
    iter_components_values(vector).into_iter().map(|(c, v)| (c, value(v))).collect()
}

fn dot(a: &[(usize, f32)], b: &[(usize, f32)]) -> f32 {
    let mut sum = 0.0;
    for x in a {
        for y in b {
            if x.0 == y.0 {
                sum += x.1 * y.1;
            }
        }
    }
    sum
}

impl VectorEncoder for Native {
    type Evaluator = Vec<(usize, f32)>;

    fn vector_evaluator(&self, vector: &SparseVector) -> Vec<(usize, f32)> {
        pairs(vector)
    }

    fn compute_distance(&self, evaluator: &Vec<(usize, f32)>, vector: &SparseVector) -> FloatBits {
        bits(dot(evaluator, &pairs(vector)))
    }
}

fn dataset(dim: usize, vectors: &[Vec<(usize, f32)>]) -> SparseDataset {
    let mut dataset = SparseDataset::new(dim);
    for vector in vectors {
        dataset.push(SparseVector::new(
            vector.iter().map(|pair| pair.0).collect(),
            vector.iter().map(|pair| bits(pair.1)).collect(),
        ));
    }
    dataset
}

/// Vectors with few distinct values, so that scores tie now and then.
fn random_dataset(seed: u64, n_vecs: usize, dim: usize) -> SparseDataset {
    let mut rng = ChaCha8Rng::seed_from_u64(seed);
    let vectors: Vec<Vec<(usize, f32)>> = (0..n_vecs)
        .map(|_| {
            let n = rng.random_range(0..8);
            let mut components: Vec<usize> = (0..n).map(|_| rng.random_range(0..dim)).collect();
            components.sort_unstable();
            components.dedup();
            components.into_iter().map(|c| (c, rng.random_range(-2..6) as f32 * 0.25)).collect()
        })
        .collect();
    dataset(dim, &vectors)
}

fn top(vector: &[(usize, f32)], doc_cut: usize) -> Vec<(usize, f32)> {
    vector.iter().copied().k_largest_by(doc_cut, |a, b| a.1.total_cmp(&b.1)).collect()
}

/// The assignments that stand, the documents to be assigned once more, the dissolved clusters.
fn dissolve(
    mut assigned: Vec<(usize, usize)>,
    min_cluster_size: usize,
) -> (Vec<(usize, usize)>, Vec<usize>, HashSet<usize>) {
    assigned.sort();
    let mut sizes: HashMap<usize, usize> = HashMap::new();
    for pair in &assigned {
        *sizes.entry(pair.0).or_insert(0) += 1;
    }
    let (kept, rest): (Vec<(usize, usize)>, Vec<(usize, usize)>) =
        assigned.into_iter().partition(|pair| sizes[&pair.0] > min_cluster_size);
    let removed = rest.iter().map(|pair| pair.0).collect();
    (kept, rest.into_iter().map(|pair| pair.1).collect(), removed)
}

/// Clusters by score, with all centroids in both assignments.
fn expected_by_score(
    data: &SparseDataset,
    doc_ids: &[usize],
    centroids: &[usize],
    min_cluster_size: usize,
    doc_cut: usize,
) -> Vec<(usize, usize)> {
    let assign = |docs: &[usize], removed: &HashSet<usize>| -> Vec<(usize, usize)> {
        docs.iter()
            .map(|&doc_id| {
                let terms = top(&pairs(data.get(doc_id)), doc_cut);
                let best = centroids
                    .iter()
                    .copied()
                    .filter(|c| !removed.contains(c))
                    .map(|c| {
                        let centroid = pairs(data.get(c));
                        let mut score = 0.0;
                        for term in &terms {
                            for entry in &centroid {
                                if entry.0 == term.0 {
                                    score += entry.1 * term.1;
                                }
                            }
                        }
                        (c, score)
                    })
                    .max_by(|a: &(usize, f32), b: &(usize, f32)| a.1.total_cmp(&b.1))
                    .map_or(centroids[0], |best| best.0);
                (best, doc_id)
            })
            .collect()
    };
    let (mut result, moved, removed) = dissolve(assign(doc_ids, &HashSet::new()), min_cluster_size);
    result.extend(assign(&moved, &removed));
    result.sort();
    result
}

/// Clusters by exact dot products, with one pruned list of scores and centroid ids per component.
fn expected_by_search(
    data: &SparseDataset,
    doc_ids: &[usize],
    centroids: &[usize],
    min_cluster_size: usize,
    list_size: usize,
    doc_cut: usize,
) -> Vec<(usize, usize)> {
    let mut lists: Vec<Vec<(f32, usize)>> = vec![Vec::new(); data.input_dim()];
    for &centroid in centroids {
        for (component, score) in pairs(data.get(centroid)) {
            lists[component].push((score, centroid));
        }
    }
    let lists: Vec<Vec<(f32, usize)>> = lists
        .into_iter()
        .map(|list| list.into_iter().k_largest_by(list_size, |a, b| a.0.total_cmp(&b.0)).collect())
        .collect();
    let assign = |docs: &[usize], removed: &HashSet<usize>| -> Vec<(usize, usize)> {
        docs.iter()
            .map(|&doc_id| {
                if centroids.contains(&doc_id) && !removed.contains(&doc_id) {
                    return (doc_id, doc_id);
                }
                let document = pairs(data.get(doc_id));
                let mut visited = removed.clone();
                let mut best = (centroids[0], 0.0);
                for (component, _) in top(&document, doc_cut) {
                    for &(_, centroid) in &lists[component] {
                        if visited.insert(centroid) {
                            let product = dot(&document, &pairs(data.get(centroid)));
                            if product > best.1 {
                                best = (centroid, product);
                            }
                        }
                    }
                }
                (best.0, doc_id)
            })
            .collect()
    };
    let (mut result, moved, removed) = dissolve(assign(doc_ids, &HashSet::new()), min_cluster_size);
    result.extend(assign(&moved, &removed));
    result.sort();
    result
}

/// Clusters by exact dot products with all centroids that are left.
fn expected_exhaustively(
    data: &SparseDataset,
    doc_ids: &[usize],
    centroids: &[usize],
    min_cluster_size: usize,
) -> Vec<(usize, usize)> {
    let assign = |docs: &[usize], removed: &HashSet<usize>| -> Vec<(usize, usize)> {
        docs.iter()
            .map(|&doc_id| {
                if centroids.contains(&doc_id) && !removed.contains(&doc_id) {
                    return (doc_id, doc_id);
                }
                let document = pairs(data.get(doc_id));
                let mut best = (centroids[0], 0.0);
                for &centroid in centroids.iter().filter(|c| !removed.contains(c)) {
                    let product = dot(&document, &pairs(data.get(centroid)));
                    if product > best.1 {
                        best = (centroid, product);
                    }
                }
                (best.0, doc_id)
            })
            .collect()
    };
    let (mut result, moved, removed) = dissolve(assign(doc_ids, &HashSet::new()), min_cluster_size);
    result.extend(assign(&moved, &removed));
    result.sort();
    result
}

#[test]
fn centroids_by_score_are_a_seeded_choice_from_the_slice() {
    let doc_ids: Vec<usize> = (100..160).collect();
    let mut rng = StdRng::seed_from_u64(1142);
    let expected: Vec<usize> = doc_ids.choose_multiple(&mut rng, 7).copied().collect();
    let chosen = choose_score_centroids(&doc_ids, 7);
    assert_eq!(chosen, expected);
    assert_eq!(chosen.len(), 7);
    assert_ne!(chosen, doc_ids[..7].to_vec());
    assert_eq!(chosen.iter().collect::<HashSet<&usize>>().len(), 7);
    assert!(chosen.iter().all(|id| doc_ids.contains(id)));
}

#[test]
fn centroids_by_dot_product_are_a_seeded_choice_from_the_stream() {
    let doc_ids: Vec<usize> = (100..160).collect();
    let mut rng = StdRng::seed_from_u64(42);
    let expected: Vec<usize> = doc_ids.iter().copied().choose_multiple(&mut rng, 7);
    let chosen = choose_dot_product_centroids(&doc_ids, 7);
    assert_eq!(chosen, expected);
    assert_eq!(chosen.len(), 7);
    assert_ne!(chosen, doc_ids[..7].to_vec());
    assert_eq!(chosen.iter().collect::<HashSet<&usize>>().len(), 7);
    assert!(chosen.iter().all(|id| doc_ids.contains(id)));
}

#[test]
fn asking_for_more_centroids_than_documents_chooses_all() {
    let doc_ids = [3, 8, 5];
    let mut by_score = choose_score_centroids(&doc_ids, 100);
    by_score.sort();
    assert_eq!(by_score, vec![3, 5, 8]);
    assert_eq!(choose_dot_product_centroids(&doc_ids, usize::MAX), vec![3, 8, 5]);
    assert_eq!(choose_dot_product_centroids(&[], 4), vec![]);
}

#[test]
fn the_list_size_is_a_share_of_the_documents_and_at_least_five() {
    assert_eq!(pruned_list_size(100, bits(0.5), &Native), 50);
    assert_eq!(pruned_list_size(1000, bits(0.0123), &Native), 12);
    assert_eq!(pruned_list_size(100, bits(0.05), &Native), 5);
    assert_eq!(pruned_list_size(100, bits(0.0), &Native), 5);
    assert_eq!(pruned_list_size(100, bits(-3.0), &Native), 5);
    assert_eq!(pruned_list_size(100, bits(f32::NAN), &Native), 5);
}

#[test]
fn small_clusters_are_dissolved_into_the_others() {
    let data = dataset(
        3,
        &[
            vec![(0, 1.0)],
            vec![(0, 2.0)],
            vec![(0, 1.0), (1, 0.5)],
            vec![(1, 1.0), (0, 0.25)],
            vec![(2, 1.0)],
        ],
    );
    let doc_ids = [0, 1, 2, 3];
    assert_eq!(
        cluster_by_score(&doc_ids, &[1, 3], &data, 0, 10, &Native),
        vec![(1, 0), (1, 1), (1, 2), (3, 3)]
    );
    assert_eq!(
        cluster_by_score(&doc_ids, &[1, 3], &data, 1, 10, &Native),
        vec![(1, 0), (1, 1), (1, 2), (1, 3)]
    );
    assert_eq!(
        cluster_by_search(&doc_ids, &[1, 3], &data, 1, 5, 10, &Native),
        vec![(1, 0), (1, 1), (1, 2), (1, 3)]
    );
    assert_eq!(
        cluster_exhaustively(&doc_ids, &[1, 3], &data, 1, &Native),
        vec![(1, 0), (1, 1), (1, 2), (1, 3)]
    );
}

#[test]
fn a_centroid_that_drew_no_document_survives() {
    let data = dataset(2, &[vec![(0, 1.0)], vec![(0, 2.0)], vec![(0, 1.0)]]);
    // Document 1 draws both documents, and document 0 is left when its cluster is dissolved.
    assert_eq!(
        cluster_by_score(&[0, 2], &[0, 1], &data, 2, 10, &Native),
        vec![(0, 0), (0, 2)]
    );
}

#[test]
fn if_every_cluster_is_dissolved_the_first_centroid_takes_all() {
    let data = dataset(2, &[vec![(0, 1.0)], vec![(1, 1.0)], vec![(0, 3.0)]]);
    assert_eq!(
        cluster_by_score(&[0, 1, 2], &[1, 2], &data, 5, 10, &Native),
        vec![(1, 0), (1, 1), (1, 2)]
    );
    assert_eq!(
        cluster_by_search(&[0, 1, 2], &[1, 2], &data, 5, 5, 10, &Native),
        vec![(1, 0), (1, 1), (1, 2)]
    );
    assert_eq!(
        cluster_exhaustively(&[0, 1, 2], &[1, 2], &data, 5, &Native),
        vec![(1, 0), (1, 1), (1, 2)]
    );
}

#[test]
fn an_index_of_the_survivors_clusters_as_one_of_all_centroids() {
    for seed in 0..30 {
        let data = random_dataset(seed, 60, 20);
        let doc_ids: Vec<usize> = (0..60).filter(|id| id % 4 != 1).collect();
        for (n_clusters, min_cluster_size, doc_cut) in [(1, 0, 3), (6, 2, 2), (15, 3, 8), (40, 4, 3), (9, 60, 2)]
        {
            let centroids = choose_score_centroids(&doc_ids, n_clusters);
            let expected = expected_by_score(&data, &doc_ids, &centroids, min_cluster_size, doc_cut);
            assert_eq!(
                do_random_kmeans_on_docids_ii_approx_dot_product(
                    &doc_ids,
                    n_clusters,
                    &data,
                    min_cluster_size,
                    doc_cut,
                    &Native,
                ),
                expected
            );
            assert_eq!(
                try_random_kmeans_on_docids_ii_approx_dot_product(
                    &doc_ids,
                    n_clusters,
                    &data,
                    min_cluster_size,
                    doc_cut,
                    &Native,
                ),
                Some(expected)
            );
        }
    }
}

#[test]
fn a_pruned_index_clusters_as_lists_per_component() {
    for seed in 0..30 {
        let data = random_dataset(seed, 60, 12);
        let doc_ids: Vec<usize> = (0..60).filter(|id| id % 5 != 2).collect();
        for (n_clusters, min_cluster_size, pruning_factor, doc_cut) in
            [(1, 0, 0.0, 3), (6, 2, 0.5, 2), (15, 3, 0.2, 8), (40, 4, 0.01, 3), (9, 60, 1.0, 2)]
        {
            let centroids = choose_dot_product_centroids(&doc_ids, n_clusters);
            let list_size = 5.max((doc_ids.len() as f32 * pruning_factor) as usize);
            let expected = expected_by_search(
                &data,
                &doc_ids,
                &centroids,
                min_cluster_size,
                list_size,
                doc_cut,
            );
            assert_eq!(
                do_random_kmeans_on_docids_ii_dot_product(
                    &doc_ids,
                    n_clusters,
                    &data,
                    min_cluster_size,
                    bits(pruning_factor),
                    doc_cut,
                    &Native,
                    &Native,
                ),
                expected
            );
            assert_eq!(
                try_random_kmeans_on_docids_ii_dot_product(
                    &doc_ids,
                    n_clusters,
                    &data,
                    min_cluster_size,
                    bits(pruning_factor),
                    doc_cut,
                    &Native,
                    &Native,
                ),
                Some(expected)
            );
        }
    }
}

#[test]
fn exhaustive_clustering_compares_with_every_centroid() {
    for seed in 0..30 {
        let data = random_dataset(seed, 60, 12);
        let doc_ids: Vec<usize> = (0..60).filter(|id| id % 3 != 2).collect();
        for (n_clusters, min_cluster_size) in [(1, 0), (6, 2), (15, 3), (38, 1), (9, 60)] {
            let centroids = choose_dot_product_centroids(&doc_ids, n_clusters);
            assert_eq!(
                do_random_kmeans_on_docids(&doc_ids, n_clusters, &data, min_cluster_size, &Native),
                expected_exhaustively(&data, &doc_ids, &centroids, min_cluster_size)
            );
        }
    }
}

#[test]
fn every_document_is_assigned_once_and_pairs_are_sorted() {
    let data = random_dataset(3, 60, 12);
    let doc_ids: Vec<usize> = (0..60).rev().collect();
    let results = [
        do_random_kmeans_on_docids_ii_approx_dot_product(&doc_ids, 12, &data, 3, 4, &Native),
        do_random_kmeans_on_docids_ii_dot_product(
            &doc_ids,
            12,
            &data,
            3,
            bits(0.3),
            4,
            &Native,
            &Native,
        ),
        do_random_kmeans_on_docids(&doc_ids, 12, &data, 3, &Native),
    ];
    for result in &results {
        let mut sorted = result.clone();
        sorted.sort();
        assert_eq!(result, &sorted);
        let mut docs: Vec<usize> = result.iter().map(|pair| pair.1).collect();
        docs.sort();
        assert_eq!(docs, (0..60).collect::<Vec<usize>>());
        assert!(result.iter().map(|pair| pair.0).collect::<HashSet<usize>>().len() <= 12);
    }
}

#[test]
fn clusters_by_score_are_large_or_took_only_moved_documents() {
    let min_cluster_size = 4;
    for seed in 0..20 {
        let data = random_dataset(seed, 60, 12);
        let doc_ids: Vec<usize> = (0..60).collect();
        let first =
            do_random_kmeans_on_docids_ii_approx_dot_product(&doc_ids, 12, &data, 0, 4, &Native);
        let result = do_random_kmeans_on_docids_ii_approx_dot_product(
            &doc_ids,
            12,
            &data,
            min_cluster_size,
            4,
            &Native,
        );
        let size = |pairs: &[(usize, usize)], cluster: usize| {
            pairs.iter().filter(|pair| pair.0 == cluster).count()
        };
        for pair in &result {
            assert!(
                size(&result, pair.0) > min_cluster_size || size(&first, pair.0) == 0,
                "cluster {}",
                pair.0
            );
        }
    }
}

#[test]
fn clustering_the_same_documents_twice_gives_the_same_clusters() {
    let data = random_dataset(5, 60, 12);
    let doc_ids: Vec<usize> = (0..60).collect();
    let by_score =
        || do_random_kmeans_on_docids_ii_approx_dot_product(&doc_ids, 9, &data, 3, 4, &Native);
    assert_eq!(by_score(), by_score());
    let by_search = || {
        do_random_kmeans_on_docids_ii_dot_product(
            &doc_ids,
            9,
            &data,
            3,
            bits(0.3),
            4,
            &Native,
            &Native,
        )
    };
    assert_eq!(by_search(), by_search());
    let exhaustive = || do_random_kmeans_on_docids(&doc_ids, 9, &data, 3, &Native);
    assert_eq!(exhaustive(), exhaustive());
}

#[test]
fn a_document_that_occurs_twice_is_assigned_twice() {
    let data = dataset(1, &[vec![(0, 1.0)], vec![(0, 2.0)]]);
    let result = do_random_kmeans_on_docids(&[1, 1, 0], 3, &data, 0, &Native);
    assert_eq!(result, vec![(0, 0), (1, 1), (1, 1)]);
}

#[test]
fn no_documents_form_no_clusters() {
    let data = random_dataset(1, 5, 4);
    assert_eq!(do_random_kmeans_on_docids_ii_approx_dot_product(&[], 4, &data, 2, 3, &Native), vec![]);
    assert_eq!(do_random_kmeans_on_docids_ii_approx_dot_product(&[], 0, &data, 2, 3, &Native), vec![]);
    assert_eq!(
        do_random_kmeans_on_docids_ii_dot_product(
            &[],
            4,
            &data,
            2,
            bits(0.5),
            3,
            &Native,
            &Native
        ),
        vec![]
    );
    assert_eq!(do_random_kmeans_on_docids(&[], 4, &data, 2, &Native), vec![]);
}

#[test]
fn the_document_of_a_dissolved_centroid_goes_to_the_closest_one_left() {
    // Documents 0 and 2 have the dot product 5 with documents 0 and 1, and 1 with the other one.
    let data = dataset(
        2,
        &[vec![(0, 1.0), (1, 2.0)], vec![(0, 1.0)], vec![(0, 5.0), (1, -2.0)]],
    );
    let expected = vec![(1, 0), (1, 1), (1, 2)];
    assert_eq!(cluster_exhaustively(&[0, 1, 2], &[1, 0], &data, 1, &Native), expected);
    assert_eq!(cluster_by_search(&[0, 1, 2], &[1, 0], &data, 1, 5, 10, &Native), expected);
}

#[test]
fn exact_clusters_but_the_first_centroids_are_large() {
    let min_cluster_size = 3;
    for seed in 0..20 {
        let data = random_dataset(seed, 60, 12);
        let doc_ids: Vec<usize> = (0..60).collect();
        let first_centroid = choose_dot_product_centroids(&doc_ids, 12)[0];
        let results = [
            do_random_kmeans_on_docids_ii_dot_product(
                &doc_ids,
                12,
                &data,
                min_cluster_size,
                bits(0.1),
                4,
                &Native,
                &Native,
            ),
            do_random_kmeans_on_docids(&doc_ids, 12, &data, min_cluster_size, &Native),
        ];
        for result in &results {
            for pair in result {
                let size = result.iter().filter(|other| other.0 == pair.0).count();
                assert!(size > min_cluster_size || pair.0 == first_centroid, "cluster {}", pair.0);
            }
        }
    }
}

#[test]
fn with_few_clusters_the_pruning_factor_has_no_influence() {
    for seed in 0..10 {
        let data = random_dataset(seed, 60, 4);
        let doc_ids: Vec<usize> = (0..60).collect();
        let cluster = |pruning_factor: f32| {
            do_random_kmeans_on_docids_ii_dot_product(
                &doc_ids,
                5,
                &data,
                4,
                bits(pruning_factor),
                3,
                &Native,
                &Native,
            )
        };
        let expected = cluster(0.0);
        for pruning_factor in [-1.0, 0.3, 1.0e30, f32::NAN, f32::INFINITY] {
            assert_eq!(cluster(pruning_factor), expected);
        }
    }
}

#[test]
fn with_nothing_pruned_cut_or_tied_a_search_clusters_as_a_scan() {
    let mut rng = ChaCha8Rng::seed_from_u64(17);
    for min_cluster_size in [0, 1, 4, 9] {
        // Random values of full precision, so that no two dot products tie.
        let vectors: Vec<Vec<(usize, f32)>> = (0..60)
            .map(|_| {
                let start = rng.random_range(0..6);
                (start..start + 4).map(|c| (c, rng.random::<f32>() - 0.3)).collect()
            })
            .collect();
        let data = dataset(10, &vectors);
        let doc_ids: Vec<usize> = (0..60).collect();
        assert_eq!(
            do_random_kmeans_on_docids_ii_dot_product(
                &doc_ids,
                5,
                &data,
                min_cluster_size,
                bits(0.0),
                4,
                &Native,
                &Native,
            ),
            do_random_kmeans_on_docids(&doc_ids, 5, &data, min_cluster_size, &Native)
        );
    }
}
