use hnsw_index::graph::{add_edge, connect, contains_id, prune, remove_id};
use hnsw_index::search::search_layer;
use hnsw_index::select::select_neighbors;

fn line_points() -> Vec<Vec<i32>> {
    vec![vec![0], vec![10], vec![20], vec![30], vec![40]]
}

fn line_layer() -> Vec<Vec<usize>> {
    vec![vec![1], vec![0, 2], vec![1, 3], vec![2, 4], vec![3]]
}

#[test]
fn search_walks_along_a_line_to_the_query() {
    let found = search_layer(&line_points(), &line_layer(), &vec![41], &vec![0], 1);
    assert_eq!(found, vec![(4, 1)]);
}

#[test]
fn search_with_a_wide_beam_returns_every_reachable_point_in_order() {
    let found = search_layer(&line_points(), &line_layer(), &vec![19], &vec![0], 5);
    assert_eq!(found, vec![(2, 1), (1, 81), (3, 121), (0, 361), (4, 441)]);
}

#[test]
fn search_keeps_the_beam_width() {
    let found = search_layer(&line_points(), &line_layer(), &vec![19], &vec![4], 2);
    assert_eq!(found, vec![(2, 1), (1, 81)]);
}

#[test]
fn search_does_not_leave_the_component_of_its_entry_points() {
    let points = vec![vec![0], vec![10], vec![20], vec![30]];
    let layer = vec![vec![1], vec![0], vec![3], vec![2]];
    let found = search_layer(&points, &layer, &vec![29], &vec![0], 4);
    assert_eq!(found, vec![(1, 361), (0, 841)]);
}

#[test]
fn search_without_entry_points_finds_nothing() {
    let found = search_layer(&line_points(), &line_layer(), &vec![19], &vec![], 3);
    assert_eq!(found, vec![]);
}

#[test]
fn search_breaks_distance_ties_by_id() {
    let points = vec![vec![0], vec![-5], vec![5]];
    let layer = vec![vec![1, 2], vec![0], vec![0]];
    let found = search_layer(&points, &layer, &vec![0], &vec![2], 3);
    assert_eq!(found, vec![(0, 0), (1, 25), (2, 25)]);
}

#[test]
fn select_takes_the_closest_first() {
    let chosen = select_neighbors(&line_points(), &vec![22], &vec![0, 4, 3, 1, 2], 3);
    assert_eq!(chosen, vec![2, 3, 1]);
}

#[test]
fn select_returns_all_of_fewer_candidates() {
    let chosen = select_neighbors(&line_points(), &vec![22], &vec![4, 0], 3);
    assert_eq!(chosen, vec![4, 0]);
}

#[test]
fn select_of_nothing_or_for_no_neighbour_is_empty() {
    assert_eq!(select_neighbors(&line_points(), &vec![22], &vec![], 3), vec![]);
    assert_eq!(select_neighbors(&line_points(), &vec![22], &vec![1, 2], 0), vec![]);
}

#[test]
fn add_edge_writes_both_directions_once() {
    let mut layer: Vec<Vec<usize>> = vec![vec![], vec![], vec![]];
    add_edge(&mut layer, 0, 2);
    add_edge(&mut layer, 2, 0);
    add_edge(&mut layer, 1, 2);
    assert_eq!(layer, vec![vec![2], vec![2], vec![0, 1]]);
}

#[test]
fn remove_id_keeps_the_order_of_the_rest() {
    let mut list = vec![4, 7, 1, 9];
    remove_id(&mut list, 7);
    assert_eq!(list, vec![4, 1, 9]);
    remove_id(&mut list, 5);
    assert_eq!(list, vec![4, 1, 9]);
    assert!(contains_id(&list, 9));
    assert!(!contains_id(&list, 7));
}

#[test]
fn prune_keeps_the_closest_and_cuts_the_back_edges() {
    let points = vec![vec![0], vec![1], vec![-2], vec![5], vec![9]];
    let mut layer = vec![vec![1, 2, 3, 4], vec![0], vec![0], vec![0, 4], vec![0, 3]];
    prune(&mut layer, &points, 0, 2);
    assert_eq!(layer, vec![vec![1, 2], vec![0], vec![0], vec![4], vec![3]]);
}

#[test]
fn connect_joins_then_prunes() {
    let points = vec![vec![0, 0], vec![10, 0], vec![0, 10], vec![50, 50]];
    let mut layer = vec![vec![1, 2], vec![0, 2], vec![0, 1], vec![]];
    connect(&mut layer, &points, 3, &vec![1, 2], 2);
    assert_eq!(layer, vec![vec![1, 2], vec![0, 2], vec![0, 1], vec![]]);
    let mut wide = vec![vec![1, 2], vec![0, 2], vec![0, 1], vec![]];
    connect(&mut wide, &points, 3, &vec![1, 2], 3);
    assert_eq!(wide, vec![vec![1, 2], vec![0, 2, 3], vec![0, 1, 3], vec![1, 2]]);
}

#[test]
fn search_goes_on_through_a_tie_in_distance() {
    let points = vec![vec![5], vec![-5], vec![-1]];
    let layer = vec![vec![1], vec![0, 2], vec![1]];
    let found = search_layer(&points, &layer, &vec![0], &vec![0], 1);
    assert_eq!(found, vec![(2, 1)]);
}

#[test]
fn search_ends_where_the_best_candidate_is_farther_than_the_worst_kept() {
    let points = vec![vec![5], vec![-6], vec![-1]];
    let layer = vec![vec![1], vec![0, 2], vec![1]];
    let found = search_layer(&points, &layer, &vec![0], &vec![0], 1);
    assert_eq!(found, vec![(0, 25)]);
}
