use ripple_reader::graph::dijkstra_with_barriers;

fn sample() -> Vec<Vec<(usize, i64)>> {
    vec![
        vec![(1, 1), (2, 5)],
        vec![(2, 1)],
        vec![],
        vec![(0, 1)],
    ]
}

#[test]
fn shortest_distances_without_barriers() {
    let d = dijkstra_with_barriers(&sample(), 0, &vec![]);
    assert_eq!(d, vec![Some(0), Some(1), Some(2), None]);
}

#[test]
fn barriers_are_reached_but_not_crossed() {
    let d = dijkstra_with_barriers(&sample(), 0, &vec![1]);
    assert_eq!(d, vec![Some(0), Some(1), Some(5), None]);
}

#[test]
fn a_barrier_source_still_expands() {
    let d = dijkstra_with_barriers(&sample(), 1, &vec![1]);
    assert_eq!(d, vec![None, Some(0), Some(1), None]);
}

#[test]
fn zero_weight_edges() {
    let adj = vec![vec![(1, 0)], vec![(0, 0)]];
    let d = dijkstra_with_barriers(&adj, 0, &vec![]);
    assert_eq!(d, vec![Some(0), Some(0)]);
}
