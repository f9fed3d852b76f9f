use rand::{Rng, SeedableRng};
use rand_chacha::ChaCha8Rng;
use seismic::KHeap;

fn filled(k: usize, items: &[u64]) -> KHeap<u64> {
    let mut heap = KHeap::new(k);
    for &item in items {
        heap.push(item);
    }
    heap
}

#[test]
fn a_new_heap_is_empty() {
    let heap: KHeap<u64> = KHeap::new(3);
    assert!(heap.is_empty());
    assert_eq!(heap.len(), 0);
    assert_eq!(heap.into_sorted_vec(), vec![]);
}

#[test]
fn below_the_limit_every_item_is_kept() {
    let heap = filled(5, &[4, 1, 3]);
    assert!(!heap.is_empty());
    assert_eq!(heap.len(), 3);
    assert_eq!(*heap.peek(), 4);
    assert_eq!(heap.into_sorted_vec(), vec![1, 3, 4]);
}

#[test]
fn at_the_limit_a_smaller_item_replaces_the_greatest() {
    let mut heap = filled(2, &[3, 1]);
    heap.push(2);
    assert_eq!(heap.len(), 2);
    assert_eq!(*heap.peek(), 2);
    assert_eq!(heap.into_sorted_vec(), vec![1, 2]);
}

#[test]
fn at_the_limit_an_item_that_is_not_smaller_is_dropped() {
    let mut heap = filled(2, &[3, 1]);
    heap.push(3);
    heap.push(9);
    assert_eq!(heap.len(), 2);
    assert_eq!(*heap.peek(), 3);
    assert_eq!(heap.into_sorted_vec(), vec![1, 3]);
}

#[test]
fn equal_items_are_kept_side_by_side() {
    assert_eq!(filled(3, &[5, 5, 5, 2, 5]).into_sorted_vec(), vec![2, 5, 5]);
}

#[test]
fn a_heap_of_one_keeps_the_minimum() {
    assert_eq!(filled(1, &[7, 4, 9, 4, 3, 8]).into_sorted_vec(), vec![3]);
}

#[test]
fn a_clone_holds_the_same_items_and_grows_apart() {
    let heap = filled(3, &[6, 2, 8, 4]);
    let mut clone = heap.clone();
    clone.push(1);
    assert_eq!(heap.into_sorted_vec(), vec![2, 4, 6]);
    assert_eq!(clone.into_sorted_vec(), vec![1, 2, 4]);
}

#[test]
fn items_of_any_ordered_type_are_kept() {
    let mut heap: KHeap<String> = KHeap::new(2);
    for word in ["pear", "apple", "quince", "fig"] {
        heap.push(word.to_string());
    }
    assert_eq!(heap.peek().as_str(), "fig");
    assert_eq!(heap.into_sorted_vec(), vec!["apple".to_string(), "fig".to_string()]);
}

#[test]
fn the_k_smallest_of_many_items_are_kept() {
    let mut rng = ChaCha8Rng::seed_from_u64(7);
    for k in 1..40 {
        let items: Vec<u64> = (0..rng.random_range(0..120)).map(|_| rng.random_range(0..50)).collect();
        let heap = filled(k, &items);
        let mut expected = items.clone();
        expected.sort_unstable();
        expected.truncate(k);
        assert_eq!(heap.len(), expected.len());
        if let Some(last) = expected.last() {
            assert_eq!(heap.peek(), last);
        }
        assert_eq!(heap.into_sorted_vec(), expected);
    }
}
