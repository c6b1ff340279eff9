use train_routing::model::{Edge, Graph, Move, Node, Package, PlanError, Train};

fn node(name: &'static str) -> Node {
    Node { name }
}

fn line() -> (Vec<Node>, Vec<Edge>) {
    (
        vec![node("A"), node("B"), node("C")],
        vec![
            Edge { name: "E1", weight: 30, from: "A", to: "B" },
            Edge { name: "E2", weight: 10, from: "B", to: "C" },
        ],
    )
}

fn train(name: &'static str, capacity: u32, start: &'static str) -> Train {
    Train { name, capacity, start }
}

fn package(name: &'static str, weight: u32, start: &'static str, dest: &'static str) -> Package {
    Package { name, weight, start, dest }
}

fn mv(
    w: u128,
    t: &'static str,
    n1: &'static str,
    p1: &'static str,
    n2: &'static str,
    p2: &'static str,
) -> Move {
    Move { w, t, n1, p1, n2, p2 }
}

fn graph_of(trains: Vec<Train>, packages: Vec<Package>) -> Graph {
    let (nodes, edges) = line();
    let mut graph = Graph::new();
    graph.input(nodes, edges, trains, packages);
    graph
}

#[test]
fn one_vehicle_one_cargo() {
    let graph = graph_of(vec![train("Q1", 6, "B")], vec![package("K1", 5, "A", "C")]);
    let plans = graph.start().unwrap();
    assert_eq!(
        plans,
        vec![vec![
            mv(0, "Q1", "B", "", "A", ""),
            mv(30, "Q1", "A", "K1", "B", ""),
            mv(60, "Q1", "B", "", "C", "K1"),
        ]]
    );
}

#[test]
fn two_vehicles_two_cargo() {
    let graph = graph_of(
        vec![train("Q1", 6, "B"), train("Q2", 6, "C")],
        vec![package("K1", 5, "A", "C"), package("K2", 5, "C", "A")],
    );
    let plans = graph.start().unwrap();
    assert_eq!(plans.len(), 2);
    assert_eq!(
        plans[0],
        vec![
            mv(0, "Q1", "B", "", "A", ""),
            mv(30, "Q1", "A", "K1", "B", ""),
            mv(60, "Q1", "B", "", "C", "K1"),
        ]
    );
    assert_eq!(
        plans[1],
        vec![mv(0, "Q2", "C", "K2", "B", ""), mv(10, "Q2", "B", "", "A", "K2")]
    );
    assert_eq!(graph.plan_delivery(graph.packages[0]), Ok(plans[0].clone()));
    assert_eq!(graph.plan_delivery(graph.packages[1]), Ok(plans[1].clone()));
}

#[test]
fn first_listed_vehicle_wins_a_tie() {
    let cargo = package("K1", 1, "B", "C");
    let graph = graph_of(vec![train("Q1", 1, "A"), train("Q2", 1, "A")], vec![cargo]);
    assert_eq!(graph.start().unwrap()[0][0].t, "Q1");
    let graph = graph_of(vec![train("Q2", 1, "A"), train("Q1", 1, "A")], vec![cargo]);
    assert_eq!(graph.start().unwrap()[0][0].t, "Q2");
    // Different places at the same cost: 30 from A, 10 + 20 from D.
    let (mut nodes, mut edges) = line();
    nodes.push(node("D"));
    nodes.push(node("E"));
    edges.push(Edge { name: "E3", weight: 10, from: "D", to: "E" });
    edges.push(Edge { name: "E4", weight: 20, from: "E", to: "B" });
    let mut graph = Graph::new();
    graph.input(nodes.clone(), edges.clone(), vec![train("Q1", 1, "D"), train("Q2", 1, "A")], vec![cargo]);
    assert_eq!(graph.start().unwrap()[0][0].t, "Q1");
    graph.input(nodes, edges, vec![train("Q2", 1, "A"), train("Q1", 1, "D")], vec![cargo]);
    assert_eq!(graph.start().unwrap()[0][0].t, "Q2");
}

#[test]
fn nearest_vehicle_wins() {
    let graph = graph_of(
        vec![train("Q1", 9, "A"), train("Q2", 9, "B"), train("Q3", 9, "C")],
        vec![package("K1", 5, "C", "A")],
    );
    assert_eq!(
        graph.start().unwrap(),
        vec![vec![
            mv(0, "Q3", "C", "K1", "B", ""),
            mv(10, "Q3", "B", "", "A", "K1"),
        ]]
    );
}

#[test]
fn vehicle_that_cannot_carry_is_passed_over() {
    let graph = graph_of(
        vec![train("Q1", 4, "A"), train("Q2", 5, "C")],
        vec![package("K1", 5, "A", "B")],
    );
    assert_eq!(
        graph.start().unwrap(),
        vec![vec![
            mv(0, "Q2", "C", "", "B", ""),
            mv(10, "Q2", "B", "", "A", ""),
            mv(40, "Q2", "A", "K1", "B", "K1"),
        ]]
    );
}

#[test]
fn no_capable_vehicle() {
    let graph = graph_of(vec![train("Q1", 4, "A")], vec![package("K1", 5, "A", "B")]);
    assert_eq!(graph.start(), Err(PlanError::NoCapableVehicle { cargo: "K1" }));
    let graph = graph_of(vec![], vec![package("K1", 0, "A", "B")]);
    assert_eq!(graph.start(), Err(PlanError::NoCapableVehicle { cargo: "K1" }));
}

#[test]
fn first_failure_ends_the_run() {
    let graph = graph_of(
        vec![train("Q1", 4, "A")],
        vec![package("K1", 4, "A", "B"), package("K2", 5, "A", "B"), package("K3", 9, "A", "B")],
    );
    assert_eq!(graph.start(), Err(PlanError::NoCapableVehicle { cargo: "K2" }));
    assert!(graph.plan_delivery(graph.packages[0]).is_ok());
}

#[test]
fn unreachable_origin_or_destination() {
    let (mut nodes, edges) = line();
    nodes.push(node("D"));
    let mut graph = Graph::new();
    graph.input(
        nodes.clone(),
        edges.clone(),
        vec![train("Q1", 9, "A"), train("Q2", 9, "D")],
        vec![package("K1", 1, "A", "B")],
    );
    assert_eq!(graph.start(), Err(PlanError::NoPath { from: "D", to: "A" }));
    graph.input(nodes.clone(), edges.clone(), vec![train("Q1", 9, "A"), train("Q2", 0, "D")], vec![
        package("K1", 1, "A", "B"),
    ]);
    assert!(graph.start().is_ok());
    graph.input(nodes, edges, vec![train("Q1", 9, "A")], vec![package("K1", 1, "A", "D")]);
    assert_eq!(graph.start(), Err(PlanError::NoPath { from: "A", to: "D" }));
}

#[test]
fn unknown_location_stops_before_planning() {
    let graph = graph_of(vec![train("Q1", 0, "A")], vec![package("K1", 5, "A", "Z")]);
    assert_eq!(graph.start(), Err(PlanError::UnknownLocation { name: "Z" }));
    assert_eq!(graph.validate(), Err(PlanError::UnknownLocation { name: "Z" }));
    let graph = graph_of(vec![train("Q1", 9, "Y")], vec![package("K1", 5, "X", "Z")]);
    assert_eq!(graph.start(), Err(PlanError::UnknownLocation { name: "Y" }));
    assert_eq!(
        graph.referred_names(),
        vec!["A", "B", "B", "C", "Y", "X", "Z"]
    );
    let graph = graph_of(vec![train("Q1", 9, "A")], vec![package("K1", 5, "A", "B")]);
    assert_eq!(graph.validate(), Ok(()));
}

#[test]
fn cargo_that_is_already_there() {
    // The vehicle comes to the origin; no further hop follows.
    let graph = graph_of(vec![train("Q1", 9, "A")], vec![package("K1", 1, "B", "B")]);
    assert_eq!(graph.start().unwrap(), vec![vec![mv(0, "Q1", "A", "", "B", "")]]);
    // The vehicle stands at the origin already: nothing moves.
    let graph = graph_of(vec![train("Q1", 9, "B")], vec![package("K1", 1, "B", "B")]);
    assert_eq!(graph.start().unwrap(), vec![Vec::<Move>::new()]);
}

#[test]
fn timeline_is_as_long_as_the_path() {
    let graph = Graph::new();
    let q = train("Q", 1, "S");
    let k = package("K", 1, "X", "Y");
    for len in 0..6usize {
        let path: Vec<Node> = (0..len).map(|_| node("N")).collect();
        let duration: Vec<u32> = (0..len).map(|i| i as u32 + 1).collect();
        assert_eq!(graph.get_moves(q, path, k, duration).len(), len);
    }
}

#[test]
fn timeline_adds_up_elapsed_weight() {
    let graph = Graph::new();
    let moves = graph.get_moves(
        train("Q", 1, "S"),
        vec![node("X"), node("M"), node("Y"), node("X")],
        package("K", 1, "X", "Y"),
        vec![5, 7, 11, 13],
    );
    assert_eq!(
        moves,
        vec![
            mv(0, "Q", "S", "", "X", ""),
            mv(5, "Q", "X", "K", "M", ""),
            mv(12, "Q", "M", "", "Y", "K"),
            mv(23, "Q", "Y", "", "X", ""),
        ]
    );
}

#[test]
fn timeline_needs_one_weight_less_than_locations() {
    let graph = Graph::new();
    let moves = graph.get_moves(
        train("Q", 1, "X"),
        vec![node("Y"), node("Z")],
        package("K", 1, "X", "Z"),
        vec![u32::MAX],
    );
    assert_eq!(
        moves,
        vec![mv(0, "Q", "X", "K", "Y", ""), mv(u32::MAX as u128, "Q", "Y", "", "Z", "K")]
    );
}

#[test]
fn elapsed_weight_grows_past_32_bits() {
    let graph = Graph::new();
    let moves = graph.get_moves(
        train("Q", 1, "S"),
        vec![node("A"), node("B"), node("C")],
        package("K", 1, "A", "C"),
        vec![u32::MAX, u32::MAX, 1],
    );
    assert_eq!(moves[2].w, 2 * (u32::MAX as u128));
}

#[test]
fn total_weight_is_the_sum() {
    assert_eq!(train_routing::planner::total_weight(&vec![]), 0);
    assert_eq!(train_routing::planner::total_weight(&vec![30, 10, 2]), 42);
}

#[test]
fn cargo_is_shown_by_name_of_the_location_alone() {
    // The vehicle passes the destination on its way to the origin.
    let (mut nodes, mut edges) = line();
    nodes.push(node("D"));
    edges.push(Edge { name: "E3", weight: 5, from: "C", to: "D" });
    let mut graph = Graph::new();
    graph.input(nodes, edges, vec![train("Q1", 1, "D")], vec![package("K1", 1, "A", "B")]);
    assert_eq!(
        graph.start().unwrap(),
        vec![vec![
            mv(0, "Q1", "D", "", "C", ""),
            mv(5, "Q1", "C", "", "B", "K1"),
            mv(15, "Q1", "B", "", "A", ""),
            mv(45, "Q1", "A", "K1", "B", "K1"),
        ]]
    );
}

#[test]
fn failed_delivery_can_be_passed_over() {
    let graph = graph_of(
        vec![train("Q1", 4, "A")],
        vec![package("K1", 9, "A", "B"), package("K2", 4, "B", "C")],
    );
    assert_eq!(graph.start(), Err(PlanError::NoCapableVehicle { cargo: "K1" }));
    let plans: Vec<Vec<Move>> =
        graph.packages.iter().filter_map(|p| graph.plan_delivery(*p).ok()).collect();
    assert_eq!(
        plans,
        vec![vec![mv(0, "Q1", "A", "", "B", ""), mv(30, "Q1", "B", "K2", "C", "K2")]]
    );
}
