use seismic::{iter_components_values, FloatBits, SparseDataset, SparseVector};

fn bits(value: f32) -> FloatBits {
    FloatBits { bits: value.to_bits() }
}

#[test]
fn components_are_paired_with_values_in_order() {
    let vector = SparseVector::new(vec![4, 1, 7], vec![bits(0.5), bits(2.0), bits(-1.0)]);
    assert_eq!(vector.len(), 3);
    assert_eq!(vector.components(), [4, 1, 7]);
    assert_eq!(vector.values(), [bits(0.5), bits(2.0), bits(-1.0)]);
    assert_eq!(
        iter_components_values(&vector),
        vec![(4, bits(0.5)), (1, bits(2.0)), (7, bits(-1.0))]
    );
}

#[test]
fn a_vector_without_components_has_no_pairs() {
    let vector = SparseVector::new(vec![], vec![]);
    assert_eq!(iter_components_values(&vector), vec![]);
}

#[test]
fn vectors_are_found_by_the_order_in_which_they_were_pushed() {
    let mut dataset = SparseDataset::new(8);
    assert_eq!(dataset.len(), 0);
    assert_eq!(dataset.input_dim(), 8);
    dataset.push(SparseVector::new(vec![3], vec![bits(1.0)]));
    dataset.push(SparseVector::new(vec![5, 6], vec![bits(2.0), bits(3.0)]));
    assert_eq!(dataset.len(), 2);
    assert_eq!(iter_components_values(dataset.get(0)), vec![(3, bits(1.0))]);
    assert_eq!(iter_components_values(dataset.get(1)), vec![(5, bits(2.0)), (6, bits(3.0))]);
}
