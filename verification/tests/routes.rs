use train_routing::model::{Edge, Graph, Node, PlanError};

fn node(name: &'static str) -> Node {
    Node { name }
}

fn edge(name: &'static str, weight: u32, from: &'static str, to: &'static str) -> Edge {
    Edge { name, weight, from, to }
}

fn network(names: &[&'static str], edges: Vec<Edge>) -> Graph {
    let mut graph = Graph::new();
    graph.input(names.iter().map(|n| node(n)).collect(), edges, vec![], vec![]);
    graph
}

fn line() -> Graph {
    network(&["A", "B", "C"], vec![edge("E1", 30, "A", "B"), edge("E2", 10, "B", "C")])
}

#[test]
fn new_graph_is_empty() {
    let graph = Graph::new();
    assert!(graph.nodes.is_empty());
    assert!(graph.edges.is_empty());
    assert!(graph.trains.is_empty());
    assert!(graph.packages.is_empty());
    assert_eq!(graph.start(), Ok(vec![]));
}

#[test]
fn input_replaces_everything() {
    let mut graph = line();
    graph.input(vec![node("X")], vec![], vec![], vec![]);
    assert_eq!(graph.nodes, vec![node("X")]);
    assert!(graph.edges.is_empty());
    assert_eq!(graph.get_names(), vec!["X"]);
}

#[test]
fn names_come_in_order() {
    assert_eq!(line().get_names(), vec!["A", "B", "C"]);
}

#[test]
fn position_is_the_first_match() {
    let graph = network(&["A", "B", "A"], vec![]);
    assert_eq!(graph.position("A"), Some(0));
    assert_eq!(graph.position("B"), Some(1));
    assert_eq!(graph.position("C"), None);
    assert_eq!(graph.position(""), None);
}

#[test]
fn names_are_compared_as_text() {
    let graph = network(&["Zürich", "Zurich", "Z"], vec![]);
    let built = String::from("Zur") + "ich";
    assert_eq!(graph.position(&built), Some(1));
    assert_eq!(graph.position("Zürich"), Some(0));
    assert_eq!(graph.position("Zü"), None);
    assert!(train_routing::text::same_name("", ""));
    assert!(!train_routing::text::same_name("a", "b"));
    assert!(!train_routing::text::same_name("a", "ab"));
}

#[test]
fn matrix_is_symmetric_and_zero_without_connection() {
    let adj = line().create_adj_matrix();
    assert_eq!(adj, vec![vec![0, 30, 0], vec![30, 0, 10], vec![0, 10, 0]]);
}

#[test]
fn later_connection_replaces_earlier_one() {
    let graph = network(
        &["A", "B"],
        vec![edge("E1", 30, "A", "B"), edge("E2", 7, "B", "A"), edge("E3", 12, "A", "B")],
    );
    assert_eq!(graph.create_adj_matrix(), vec![vec![0, 12], vec![12, 0]]);
}

#[test]
fn matrix_of_no_locations_is_empty() {
    let graph = Graph::new();
    assert_eq!(graph.create_adj_matrix(), Vec::<Vec<u32>>::new());
}

#[test]
fn route_follows_the_lighter_detour() {
    let graph = network(
        &["A", "B", "C", "D"],
        vec![
            edge("E1", 100, "A", "D"),
            edge("E2", 30, "A", "B"),
            edge("E3", 10, "B", "C"),
            edge("E4", 5, "C", "D"),
        ],
    );
    let (path, hops) = graph.shortest_path("A", "D").unwrap();
    assert_eq!(path, vec![node("B"), node("C"), node("D")]);
    assert_eq!(hops, vec![30, 10, 5]);
    assert_eq!(hops.iter().map(|w| *w as u64).sum::<u64>(), 45);
}

#[test]
fn route_to_itself_is_empty() {
    let graph = line();
    for name in ["A", "B", "C"] {
        assert_eq!(graph.shortest_path(name, name), Ok((vec![], vec![])));
    }
}

#[test]
fn disconnected_pair_has_no_path() {
    let graph = network(&["A", "B", "C", "D"], vec![edge("E1", 3, "A", "B"), edge("E2", 4, "C", "D")]);
    assert_eq!(graph.shortest_path("A", "C"), Err(PlanError::NoPath { from: "A", to: "C" }));
    assert_eq!(graph.shortest_path("D", "B"), Err(PlanError::NoPath { from: "D", to: "B" }));
    assert_eq!(graph.shortest_path("A", "B"), Ok((vec![node("B")], vec![3])));
    assert_eq!(graph.shortest_path("D", "C"), Ok((vec![node("C")], vec![4])));
}

#[test]
fn isolated_location_is_unreachable() {
    let graph = network(&["A", "B", "C"], vec![edge("E1", 3, "B", "C")]);
    assert_eq!(graph.shortest_path("B", "A"), Err(PlanError::NoPath { from: "B", to: "A" }));
    assert_eq!(graph.shortest_path("A", "C"), Err(PlanError::NoPath { from: "A", to: "C" }));
}

#[test]
fn route_costs_the_same_in_both_directions() {
    let graph = network(
        &["A", "B", "C", "D", "E"],
        vec![
            edge("E1", 7, "A", "B"),
            edge("E2", 9, "A", "C"),
            edge("E3", 10, "B", "C"),
            edge("E4", 15, "B", "D"),
            edge("E5", 11, "C", "D"),
            edge("E6", 6, "D", "E"),
            edge("E7", 2, "C", "E"),
        ],
    );
    let names = ["A", "B", "C", "D", "E"];
    for a in names {
        for b in names {
            let there: u64 = graph.shortest_path(a, b).unwrap().1.iter().map(|w| *w as u64).sum();
            let back: u64 = graph.shortest_path(b, a).unwrap().1.iter().map(|w| *w as u64).sum();
            assert_eq!(there, back);
        }
    }
    let (path, hops) = graph.shortest_path("A", "E").unwrap();
    assert_eq!(path, vec![node("C"), node("E")]);
    assert_eq!(hops, vec![9, 2]);
    let (path, hops) = graph.shortest_path("B", "E").unwrap();
    assert_eq!(path, vec![node("C"), node("E")]);
    assert_eq!(hops, vec![10, 2]);
}

#[test]
fn same_query_gives_same_answer() {
    let graph = line();
    let first = graph.shortest_path("A", "C");
    let second = graph.shortest_path("A", "C");
    assert_eq!(first, second);
    assert_eq!(first, Ok((vec![node("B"), node("C")], vec![30, 10])));
    let first = graph.shortest_path("A", "nowhere");
    let second = graph.shortest_path("A", "nowhere");
    assert_eq!(first, second);
}

#[test]
fn unknown_names_are_reported() {
    let graph = line();
    assert_eq!(graph.shortest_path("X", "A"), Err(PlanError::UnknownLocation { name: "X" }));
    assert_eq!(graph.shortest_path("A", "Y"), Err(PlanError::UnknownLocation { name: "Y" }));
    assert_eq!(graph.shortest_path("X", "Y"), Err(PlanError::UnknownLocation { name: "X" }));
}

#[test]
fn unknown_end_of_a_connection_is_reported_first() {
    let graph = network(
        &["A", "B"],
        vec![edge("E1", 1, "A", "B"), edge("E2", 1, "B", "Q"), edge("E3", 1, "P", "A")],
    );
    assert_eq!(graph.shortest_path("A", "B"), Err(PlanError::UnknownLocation { name: "Q" }));
    assert_eq!(graph.shortest_path("X", "B"), Err(PlanError::UnknownLocation { name: "Q" }));
    assert_eq!(graph.validate(), Err(PlanError::UnknownLocation { name: "Q" }));
    assert_eq!(graph.edge_ends(), vec!["A", "B", "B", "Q", "P", "A"]);
    assert_eq!(graph.first_unknown_of(&vec!["B", "P", "Q"]), Some("P"));
    assert_eq!(graph.first_unknown_of(&vec!["B", "A"]), None);
    assert_eq!(graph.first_unknown_of(&vec![]), None);
}

#[test]
fn heavy_hops_do_not_overflow() {
    let graph = network(
        &["A", "B", "C"],
        vec![edge("E1", u32::MAX, "A", "B"), edge("E2", u32::MAX, "B", "C")],
    );
    let (path, hops) = graph.shortest_path("A", "C").unwrap();
    assert_eq!(path, vec![node("B"), node("C")]);
    assert_eq!(hops, vec![u32::MAX, u32::MAX]);
    assert_eq!(train_routing::planner::total_weight(&hops), 2 * (u32::MAX as u128));
}

#[test]
fn error_messages() {
    assert_eq!(PlanError::NoPath { from: "A", to: "B" }.message(), "No Path");
    assert_eq!(PlanError::UnknownLocation { name: "A" }.message(), "Unknown Location");
    assert_eq!(PlanError::NoCapableVehicle { cargo: "K" }.message(), "No Capable Vehicle");
}
