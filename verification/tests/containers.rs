use hnsw_index::distance::dist_sq;
use hnsw_index::error::IndexError;
use hnsw_index::ranked::{key_less, BestList, SimpleQueue};
use hnsw_index::slot::MyStruct;

#[test]
fn test_min_heap() {
    let v1 = vec![0, 3];
    let v2 = vec![5, 0];
    let query = vec![0, 0];
    let mut heap = SimpleQueue::new();

    let d1 = dist_sq(&query, &v1).unwrap();
    let d2 = dist_sq(&query, &v2).unwrap();

    heap.add((0, d1));
    heap.add((1, d2));

    let top = heap.pop().unwrap();
    assert_eq!(0, top.0);
}

#[test]
fn test_max_heap() {
    let v1 = vec![0, 3];
    let v2 = vec![5, 0];
    let query = vec![0, 0];
    let mut heap = BestList::new(2);

    let d1 = dist_sq(&query, &v1).unwrap();
    let d2 = dist_sq(&query, &v2).unwrap();

    heap.offer((0, d1));
    heap.offer((1, d2));

    let top = heap.worst().unwrap();
    assert_eq!(1, top.0);
}

#[test]
fn test_comparison() {
    let v1 = vec![0, 3];
    let v2 = vec![5, 0];
    let query = vec![0, 0];
    let d1 = dist_sq(&query, &v1).unwrap();
    let d2 = dist_sq(&query, &v2).unwrap();

    assert!(key_less((0, d1), (1, d2)));
    assert!(!key_less((1, d2), (0, d1)));
}

#[test]
fn dist_sq_of_a_three_four_triangle() {
    assert_eq!(dist_sq(&vec![0, 0], &vec![3, 4]), Ok(25));
    assert_eq!(dist_sq(&vec![3, 4], &vec![0, 0]), Ok(25));
}

#[test]
fn dist_sq_of_a_vector_to_itself_is_zero() {
    assert_eq!(dist_sq(&vec![7, -9, 12], &vec![7, -9, 12]), Ok(0));
}

#[test]
fn dist_sq_of_empty_vectors_is_zero() {
    assert_eq!(dist_sq(&vec![], &vec![]), Ok(0));
}

#[test]
fn dist_sq_at_the_ends_of_the_coordinate_range() {
    let lo = vec![i32::MIN, i32::MIN];
    let hi = vec![i32::MAX, i32::MAX];
    assert_eq!(dist_sq(&lo, &hi), Ok(2 * 18446744065119617025u128));
}

#[test]
fn key_order_breaks_ties_by_id() {
    assert!(key_less((1, 5), (2, 5)));
    assert!(!key_less((2, 5), (1, 5)));
    assert!(!key_less((1, 5), (1, 5)));
    assert!(key_less((9, 4), (1, 5)));
}

#[test]
fn queue_pops_in_rank_order() {
    let mut q = SimpleQueue::new();
    assert!(q.is_empty());
    assert_eq!(q.add((3, 30)), 0);
    assert_eq!(q.add((1, 10)), 0);
    assert_eq!(q.add((2, 20)), 1);
    assert_eq!(q.add((0, 20)), 1);
    assert!(!q.is_empty());
    assert_eq!(q.pop(), Some((1, 10)));
    assert_eq!(q.pop(), Some((0, 20)));
    assert_eq!(q.pop(), Some((2, 20)));
    assert_eq!(q.pop(), Some((3, 30)));
    assert_eq!(q.pop(), None);
    assert!(q.is_empty());
}

#[test]
fn best_list_keeps_the_best_within_its_capacity() {
    let mut b = BestList::new(2);
    b.offer((0, 50));
    b.offer((1, 41));
    assert_eq!(b.items, vec![(1, 41), (0, 50)]);
    b.offer((2, 41));
    assert_eq!(b.items, vec![(1, 41), (2, 41)]);
    b.offer((3, 99));
    assert_eq!(b.items, vec![(1, 41), (2, 41)]);
    b.offer((4, 0));
    assert_eq!(b.items, vec![(4, 0), (1, 41)]);
}

#[test]
fn best_list_keeps_an_entry_once() {
    let mut b = BestList::new(3);
    b.offer((7, 5));
    b.offer((7, 5));
    assert_eq!(b.items, vec![(7, 5)]);
}

#[test]
fn set_value_overwrites() {
    let mut s = MyStruct { value: 10 };
    s.set_value(20);
    assert_eq!(s.value, 20);
}

#[test]
fn dist_sq_of_vectors_of_two_lengths_is_a_dimension_mismatch() {
    assert_eq!(dist_sq(&vec![1, 2, 3], &vec![1, 2]), Err(IndexError::DimensionMismatch));
    assert_eq!(dist_sq(&vec![], &vec![0]), Err(IndexError::DimensionMismatch));
    assert_eq!(dist_sq(&vec![1, 2, 3], &vec![3, 2, 1]), Ok(8));
}

#[test]
fn the_worst_kept_entry_is_the_last() {
    let mut b = BestList::new(3);
    assert_eq!(b.worst(), None);
    b.offer((4, 9));
    b.offer((2, 30));
    b.offer((3, 1));
    assert_eq!(b.worst(), Some((2, 30)));
}

#[test]
fn errors_describe_themselves() {
    assert_eq!(IndexError::DimensionMismatch.message(), "dimension mismatch");
    assert_eq!(IndexError::InvalidParameter.message(), "invalid parameter");
}
