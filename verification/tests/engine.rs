use train_routing::model::Graph;

#[test]
fn min_dist_takes_the_nearest_unvisited() {
    let dist = vec![Some(0), Some(30), Some(10), None];
    assert_eq!(Graph::min_dist(&dist, &vec![false, false, false, false]), 0);
    assert_eq!(Graph::min_dist(&dist, &vec![true, false, false, false]), 2);
    assert_eq!(Graph::min_dist(&dist, &vec![true, false, true, false]), 1);
    assert_eq!(Graph::min_dist(&dist, &vec![true, true, true, false]), 3);
}

#[test]
fn min_dist_takes_the_first_of_equally_near() {
    let dist = vec![Some(5), Some(2), Some(2), Some(2)];
    assert_eq!(Graph::min_dist(&dist, &vec![false, false, false, false]), 1);
    assert_eq!(Graph::min_dist(&dist, &vec![false, true, false, false]), 2);
    let far = vec![None, None, None];
    assert_eq!(Graph::min_dist(&far, &vec![true, false, false]), 1);
    assert_eq!(Graph::min_dist(&far, &vec![false, false, false]), 0);
}

#[test]
fn min_dist_without_unvisited_is_zero() {
    assert_eq!(Graph::min_dist(&vec![Some(3), Some(1)], &vec![true, true]), 0);
    assert_eq!(Graph::min_dist(&vec![], &vec![]), 0);
}

#[test]
fn dijkstra_gives_the_walk_from_source_to_target() {
    let graph = vec![vec![0, 30, 0], vec![30, 0, 10], vec![0, 10, 0]];
    assert_eq!(Graph::dijkstra(&graph, 0, 2), Some(vec![0, 1, 2]));
    assert_eq!(Graph::dijkstra(&graph, 2, 0), Some(vec![2, 1, 0]));
    assert_eq!(Graph::dijkstra(&graph, 1, 0), Some(vec![1, 0]));
    assert_eq!(Graph::dijkstra(&graph, 1, 1), Some(vec![1]));
}

#[test]
fn dijkstra_on_a_single_node() {
    assert_eq!(Graph::dijkstra(&vec![vec![0]], 0, 0), Some(vec![0]));
    assert_eq!(Graph::dijkstra(&vec![vec![4]], 0, 0), Some(vec![0]));
}

#[test]
fn dijkstra_reports_unreachable() {
    let graph = vec![vec![0, 1, 0, 0], vec![1, 0, 0, 0], vec![0, 0, 0, 2], vec![0, 0, 2, 0]];
    assert_eq!(Graph::dijkstra(&graph, 0, 3), None);
    assert_eq!(Graph::dijkstra(&graph, 3, 1), None);
    assert_eq!(Graph::dijkstra(&graph, 2, 3), Some(vec![2, 3]));
}

#[test]
fn dijkstra_follows_directed_hops() {
    let graph = vec![vec![0, 5, 0], vec![0, 0, 5], vec![1, 0, 0]];
    assert_eq!(Graph::dijkstra(&graph, 0, 2), Some(vec![0, 1, 2]));
    assert_eq!(Graph::dijkstra(&graph, 2, 1), Some(vec![2, 0, 1]));
    assert_eq!(Graph::dijkstra(&graph, 1, 0), Some(vec![1, 2, 0]));
}

#[test]
fn dijkstra_enters_from_the_lowest_index_among_equals() {
    // 0 -> 1 -> 3 and 0 -> 2 -> 3 weigh the same.
    let graph = vec![vec![0, 1, 1, 0], vec![1, 0, 0, 1], vec![1, 0, 0, 1], vec![0, 1, 1, 0]];
    assert_eq!(Graph::dijkstra(&graph, 0, 3), Some(vec![0, 1, 3]));
    assert_eq!(Graph::dijkstra(&graph, 3, 0), Some(vec![3, 1, 0]));
}

#[test]
fn dijkstra_enters_from_the_nearest_among_equals() {
    // 0 -> 2 -> 3 (1 + 4) and 0 -> 1 -> 3 (3 + 2) weigh the same; node 2 is nearer to 0.
    let graph = vec![vec![0, 3, 1, 0], vec![3, 0, 0, 2], vec![1, 0, 0, 4], vec![0, 2, 4, 0]];
    assert_eq!(Graph::dijkstra(&graph, 0, 3), Some(vec![0, 2, 3]));
}

#[test]
fn dijkstra_prefers_many_light_hops_to_one_heavy() {
    let graph = vec![
        vec![0, 2, 0, 0, 9],
        vec![2, 0, 2, 0, 0],
        vec![0, 2, 0, 2, 0],
        vec![0, 0, 2, 0, 2],
        vec![9, 0, 0, 2, 0],
    ];
    assert_eq!(Graph::dijkstra(&graph, 0, 4), Some(vec![0, 1, 2, 3, 4]));
    let mut direct = graph.clone();
    direct[0][4] = 8;
    direct[4][0] = 8;
    assert_eq!(Graph::dijkstra(&direct, 0, 4), Some(vec![0, 4]));
}

#[test]
fn dijkstra_reaches_the_node_left_unvisited() {
    // The last node is never visited; its distance must still be right.
    let graph = vec![vec![0, 1, 10], vec![1, 0, 1], vec![10, 1, 0]];
    assert_eq!(Graph::dijkstra(&graph, 0, 2), Some(vec![0, 1, 2]));
}
