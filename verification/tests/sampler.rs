use hnsw_index::error::IndexError;
use hnsw_index::index::{Index, MAX_LAYERS};
use hnsw_index::sampler::{layer_of_draw, sample_layer};

#[test]
fn a_draw_counts_the_leading_thresholds_above_it() {
    let table = vec![100, 50, 10];
    assert_eq!(layer_of_draw(5, &table), 3);
    assert_eq!(layer_of_draw(10, &table), 2);
    assert_eq!(layer_of_draw(49, &table), 2);
    assert_eq!(layer_of_draw(50, &table), 1);
    assert_eq!(layer_of_draw(100, &table), 0);
    assert_eq!(layer_of_draw(u64::MAX, &table), 0);
}

#[test]
fn a_draw_stops_at_the_first_threshold_it_reaches() {
    assert_eq!(layer_of_draw(20, &vec![100, 10, 50]), 1);
}

#[test]
fn a_draw_is_capped_at_the_highest_layer() {
    let table = vec![u64::MAX; 25];
    assert_eq!(layer_of_draw(0, &table), MAX_LAYERS);
}

#[test]
fn a_draw_from_no_thresholds_is_layer_zero() {
    assert_eq!(layer_of_draw(0, &vec![]), 0);
    assert_eq!(sample_layer(&vec![]), 0);
}

#[test]
fn sampled_layers_stay_within_the_table_and_the_cap() {
    let table = vec![u64::MAX / 2, u64::MAX / 4, u64::MAX / 8];
    let mut seen = [0usize; 4];
    for _ in 0..2000 {
        let layer = sample_layer(&table);
        assert!(layer <= 3);
        seen[layer] += 1;
    }
    assert!(seen[0] > seen[1] && seen[1] > seen[2] && seen[0] > 700 && seen[0] < 1300);
    assert_eq!(sample_layer(&vec![0, u64::MAX]), 0);
}

#[test]
fn a_sampled_insertion_draws_its_layer_from_the_table_of_the_index() {
    let mut index = Index::new(vec![]);
    assert_eq!(index.insert_sampled(vec![1, 1], 2), Ok(0));
    assert_eq!(index.insert_sampled(vec![2, 2], 2), Ok(1));
    assert_eq!(index.assigned, vec![0, 0]);
    assert_eq!(index.insert_sampled(vec![2, 2, 2], 2), Err(IndexError::DimensionMismatch));
    assert_eq!(index.insert_sampled(vec![2, 2], 0), Err(IndexError::InvalidParameter));
    assert_eq!(index.size(), 2);

    let mut blocked = Index::new(vec![0, u64::MAX]);
    for i in 0..20 {
        blocked.insert_sampled(vec![i], 3).unwrap();
    }
    assert_eq!(blocked.assigned, vec![0; 20]);

    let mut layered = Index::new(vec![u64::MAX / 2, u64::MAX / 4]);
    for i in 0..200 {
        let id = layered.insert_sampled(vec![i, -i], 3).unwrap();
        assert!(layered.assigned[id] <= 2);
    }
    assert_eq!(layered.size(), 200);
    assert_eq!(layered.thresholds, vec![u64::MAX / 2, u64::MAX / 4]);
    assert!(layered.top_layer() >= 1);
    for i in 0..200 {
        assert!(layered.query(&vec![i, -i], 1, 200).is_ok());
    }
}
