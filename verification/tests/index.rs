use hnsw_index::error::IndexError;
use hnsw_index::index::{clamp_layer, Index, MAX_LAYERS};
use hnsw_index::distance::dist_sq;

fn symmetric(index: &Index) -> bool {
    for layer in index.layers.iter() {
        for (p, list) in layer.iter().enumerate() {
            for &q in list.iter() {
                if !layer[q].contains(&p) {
                    return false;
                }
            }
        }
    }
    true
}

fn max_degree(index: &Index) -> usize {
    let mut best = 0;
    for layer in index.layers.iter() {
        for list in layer.iter() {
            best = best.max(list.len());
        }
    }
    best
}

struct Lcg(u64);

impl Lcg {
    fn next(&mut self) -> u64 {
        self.0 = self.0.wrapping_mul(6364136223846793005).wrapping_add(1442695040888963407);
        self.0 >> 33
    }
}

fn scattered(n: usize, seed: u64) -> Vec<Vec<i32>> {
    let mut rng = Lcg(seed);
    let mut out = Vec::new();
    for _ in 0..n {
        out.push(vec![(rng.next() % 2001) as i32 - 1000, (rng.next() % 2001) as i32 - 1000]);
    }
    out
}

fn brute_force(points: &Vec<Vec<i32>>, query: &Vec<i32>, k: usize) -> Vec<(usize, u128)> {
    let mut all: Vec<(usize, u128)> =
        points.iter().enumerate().map(|(i, p)| (i, dist_sq(query, p).unwrap())).collect();
    all.sort_by(|a, b| (a.1, a.0).cmp(&(b.1, b.0)));
    all.truncate(k);
    all
}

#[test]
fn an_empty_index_answers_with_nothing() {
    let index = Index::new(vec![]);
    assert_eq!(index.size(), 0);
    assert_eq!(index.query(&vec![1, 2], 1, 1), Ok(vec![]));
    assert_eq!(index.entry_point, None);
}

#[test]
fn size_grows_by_one_with_each_insertion() {
    let mut index = Index::new(vec![]);
    for (i, p) in scattered(30, 7).into_iter().enumerate() {
        assert_eq!(index.size(), i);
        assert_eq!(index.insert(p, 3, i % 4), Ok(i));
        assert_eq!(index.size(), i + 1);
    }
}

#[test]
fn a_refused_insertion_leaves_the_size() {
    let mut index = Index::new(vec![]);
    index.insert(vec![0, 0], 2, 0).unwrap();
    assert!(index.insert(vec![0, 0, 0], 2, 0).is_err());
    assert!(index.insert(vec![0, 0], 0, 0).is_err());
    assert_eq!(index.size(), 1);
}

#[test]
fn inserting_another_dimension_is_a_dimension_mismatch() {
    let mut index = Index::new(vec![]);
    assert_eq!(index.insert(vec![1, 2], 2, 0), Ok(0));
    assert_eq!(index.insert(vec![1, 2, 3], 2, 0), Err(IndexError::DimensionMismatch));
    assert_eq!(index.insert(vec![3, 4], 2, 0), Ok(1));
}

#[test]
fn querying_another_dimension_is_a_dimension_mismatch() {
    let mut index = Index::new(vec![]);
    index.insert(vec![1, 2], 2, 0).unwrap();
    assert_eq!(index.query(&vec![1, 2, 3], 1, 1), Err(IndexError::DimensionMismatch));
}

#[test]
fn zero_neighbours_is_an_invalid_parameter() {
    let mut index = Index::new(vec![]);
    assert_eq!(index.insert(vec![1, 2], 0, 0), Err(IndexError::InvalidParameter));
    assert_eq!(index.size(), 0);
}

#[test]
fn bad_query_counts_are_invalid_parameters() {
    let mut index = Index::new(vec![]);
    index.insert(vec![1, 2], 2, 0).unwrap();
    assert_eq!(index.query(&vec![1, 2], 0, 4), Err(IndexError::InvalidParameter));
    assert_eq!(index.query(&vec![1, 2], 1, 0), Err(IndexError::InvalidParameter));
    assert_eq!(index.query(&vec![1, 2], 3, 2), Err(IndexError::InvalidParameter));
    assert_eq!(index.query(&vec![1, 2, 3], 3, 2), Err(IndexError::InvalidParameter));
    assert_eq!(index.query(&vec![1, 2], 2, 2), Ok(vec![(0, 0)]));
}

#[test]
fn the_first_point_is_found_by_its_own_vector() {
    let mut index = Index::new(vec![]);
    let id = index.insert(vec![12, -7, 3], 4, 2).unwrap();
    assert_eq!(index.query(&vec![12, -7, 3], 1, 1), Ok(vec![(id, 0)]));
}

#[test]
fn a_new_point_is_found_by_its_own_vector() {
    let mut index = Index::new(vec![]);
    for p in scattered(40, 11) {
        let id = index.insert(p.clone(), 40, 0).unwrap();
        assert_eq!(index.query(&p, 1, 1).unwrap()[0], (id, 0));
    }
}

#[test]
fn four_points_scenario() {
    let mut index = Index::new(vec![]);
    assert_eq!(index.insert(vec![0, 0], 2, 0), Ok(0));
    assert_eq!(index.insert(vec![10, 0], 2, 0), Ok(1));
    assert_eq!(index.insert(vec![0, 10], 2, 0), Ok(2));
    assert_eq!(index.insert(vec![50, 50], 2, 0), Ok(3));
    assert_eq!(index.query(&vec![0, 1], 1, 4), Ok(vec![(0, 1)]));
    assert!(symmetric(&index));
    assert!(max_degree(&index) <= 2);
    // The last point joined the points 1 and 2, which both had two closer
    // neighbours already and so gave the new edge up again.
    assert_eq!(index.layers[0], vec![vec![1, 2], vec![0, 2], vec![0, 1], vec![]]);
    assert_eq!(index.query(&vec![50, 50], 2, 4), Ok(vec![(1, 4100), (2, 4100)]));
}

#[test]
fn four_points_scenario_with_room_for_three_neighbours() {
    let mut index = Index::new(vec![]);
    index.insert(vec![0, 0], 3, 0).unwrap();
    index.insert(vec![10, 0], 3, 0).unwrap();
    index.insert(vec![0, 10], 3, 0).unwrap();
    index.insert(vec![50, 50], 3, 0).unwrap();
    assert_eq!(index.query(&vec![0, 1], 1, 4), Ok(vec![(0, 1)]));
    assert_eq!(index.query(&vec![50, 50], 2, 4), Ok(vec![(3, 0), (1, 4100)]));
}

#[test]
fn the_graph_stays_symmetric_and_within_the_degree_bound() {
    let mut index = Index::new(vec![]);
    let mut rng = Lcg(99);
    for p in scattered(120, 3) {
        let layer = (rng.next() % 5) as usize;
        index.insert(p, 4, layer).unwrap();
        assert!(symmetric(&index));
        assert!(max_degree(&index) <= 4);
    }
    assert_eq!(index.size(), 120);
}

#[test]
fn points_have_neighbours_only_up_to_their_layer() {
    let mut index = Index::new(vec![]);
    let mut rng = Lcg(5);
    for p in scattered(80, 21) {
        let layer = (rng.next() % 4) as usize;
        index.insert(p, 3, layer).unwrap();
    }
    for (l, layer) in index.layers.iter().enumerate() {
        for (p, list) in layer.iter().enumerate() {
            assert!(list.is_empty() || l <= index.assigned[p]);
        }
    }
    let e = index.entry_point.unwrap();
    assert_eq!(index.assigned[e], index.top_layer);
}

#[test]
fn a_full_beam_on_a_connected_layer_is_exact() {
    let points = scattered(60, 42);
    let mut index = Index::new(vec![]);
    for p in points.iter() {
        index.insert(p.clone(), 60, 0).unwrap();
    }
    let mut rng = Lcg(1);
    for _ in 0..20 {
        let q = vec![(rng.next() % 2001) as i32 - 1000, (rng.next() % 2001) as i32 - 1000];
        for k in [1usize, 5, 60] {
            assert_eq!(index.query(&q, k, 60), Ok(brute_force(&points, &q, k)));
        }
    }
}

#[test]
fn results_come_in_ascending_distance() {
    let points = scattered(100, 8);
    let mut index = Index::new(vec![]);
    let mut rng = Lcg(17);
    for p in points.iter() {
        index.insert(p.clone(), 5, (rng.next() % 3) as usize).unwrap();
    }
    let found = index.query(&vec![10, -20], 10, 30).unwrap();
    assert!(!found.is_empty() && found.len() <= 10);
    for w in found.windows(2) {
        assert!((w[0].1, w[0].0) < (w[1].1, w[1].0));
    }
    for (id, d) in found {
        assert_eq!(Ok(d), dist_sq(&vec![10, -20], &points[id]));
    }
}

#[test]
fn a_higher_layer_makes_the_new_point_the_entry_point() {
    let mut index = Index::new(vec![]);
    index.insert(vec![0, 0], 2, 1).unwrap();
    assert_eq!((index.top_layer, index.entry_point), (1, Some(0)));
    index.insert(vec![5, 5], 2, 1).unwrap();
    assert_eq!((index.top_layer, index.entry_point), (1, Some(0)));
    assert_eq!(index.layers[1], vec![vec![1], vec![0]]);
    index.insert(vec![9, 9], 2, 3).unwrap();
    assert_eq!((index.top_layer, index.entry_point), (3, Some(2)));
    assert_eq!(index.assigned, vec![1, 1, 3]);
}

#[test]
fn drawn_layers_are_capped() {
    assert_eq!(clamp_layer(3), 3);
    assert_eq!(clamp_layer(MAX_LAYERS), MAX_LAYERS);
    assert_eq!(clamp_layer(MAX_LAYERS + 1), MAX_LAYERS);
    let mut index = Index::new(vec![]);
    index.insert(vec![1], 2, 1000).unwrap();
    assert_eq!(index.top_layer, 10);
    assert_eq!(index.layers.len(), 11);
}

#[test]
fn getters_read_the_index() {
    let mut index = Index::new(vec![]);
    assert_eq!(index.dimension(), None);
    assert_eq!(index.top_layer(), 0);
    assert_eq!(index.entry_point(), None);
    assert_eq!(index.layer_of(0), None);
    assert_eq!(index.neighbors(0, 0), vec![]);
    index.insert(vec![1, 2, 3], 2, 2).unwrap();
    index.insert(vec![4, 5, 6], 2, 1).unwrap();
    assert_eq!(index.dimension(), Some(3));
    assert_eq!(index.point(1), Some(&vec![4, 5, 6]));
    assert_eq!(index.point(2), None);
    assert_eq!(index.top_layer(), 2);
    assert_eq!(index.entry_point(), Some(0));
    assert_eq!(index.layer_of(0), Some(2));
    assert_eq!(index.layer_of(1), Some(1));
    assert_eq!(index.layer_of(2), None);
    assert_eq!(index.neighbors(0, 0), vec![1]);
    assert_eq!(index.neighbors(1, 1), vec![0]);
    assert_eq!(index.neighbors(1, 2), vec![]);
    assert_eq!(index.neighbors(0, 11), vec![]);
    assert_eq!(index.neighbors(7, 0), vec![]);
}

#[test]
fn a_point_above_the_top_layer_is_linked_from_the_old_entry_point() {
    let mut index = Index::new(vec![]);
    assert_eq!(index.insert(vec![0, 0], 2, 0), Ok(0));
    assert_eq!(index.insert(vec![5, 5], 2, 1), Ok(1));
    assert_eq!((index.top_layer(), index.entry_point()), (1, Some(1)));
    assert_eq!(index.neighbors(1, 0), vec![0]);
    assert_eq!(index.neighbors(0, 0), vec![1]);
    assert_eq!(index.neighbors(1, 1), vec![]);
    assert_eq!(index.query(&vec![0, 0], 1, 2), Ok(vec![(0, 0)]));
    assert_eq!(index.query(&vec![0, 0], 2, 2), Ok(vec![(0, 0), (1, 50)]));
    assert_eq!(index.query(&vec![5, 5], 1, 1), Ok(vec![(1, 0)]));
}

#[test]
fn a_point_above_the_top_layer_joins_every_earlier_point_where_there_is_room() {
    for layer in 1..=MAX_LAYERS {
        let mut index = Index::new(vec![]);
        let points = scattered(6, 13);
        for p in points.iter() {
            index.insert(p.clone(), 10, 0).unwrap();
        }
        let id = index.insert(vec![3, 4], 10, layer).unwrap();
        let mut linked = index.neighbors(id, 0);
        linked.sort();
        assert_eq!(linked, vec![0, 1, 2, 3, 4, 5]);
        assert!(symmetric(&index));
        assert_eq!((index.top_layer(), index.entry_point()), (layer, Some(id)));
        for (i, p) in points.iter().enumerate() {
            assert_eq!(index.query(p, 1, 7).unwrap()[0], (i, 0));
        }
    }
}

#[test]
fn an_earlier_point_is_found_after_the_top_layer_has_risen() {
    let mut index = Index::new(vec![]);
    let points = scattered(50, 77);
    for (i, p) in points.iter().enumerate() {
        index.insert(p.clone(), 50, i % 5).unwrap();
    }
    assert_eq!(index.top_layer(), 4);
    for (i, p) in points.iter().enumerate() {
        assert_eq!(index.query(p, 1, 50).unwrap()[0], (i, 0));
    }
}

#[test]
fn a_full_beam_is_exact_with_points_on_many_layers() {
    let points = scattered(60, 5);
    let mut index = Index::new(vec![]);
    let mut rng = Lcg(23);
    for p in points.iter() {
        index.insert(p.clone(), 60, (rng.next() % 6) as usize).unwrap();
    }
    let mut draw = Lcg(3);
    for _ in 0..20 {
        let q = vec![(draw.next() % 2001) as i32 - 1000, (draw.next() % 2001) as i32 - 1000];
        for k in [1usize, 7, 60] {
            assert_eq!(index.query(&q, k, 60), Ok(brute_force(&points, &q, k)));
        }
    }
}
