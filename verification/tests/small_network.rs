use train_routing::model::{Edge, Graph, Move, Node, Package, Train};

fn setup(graph: &mut Graph) -> &Graph {
    let nodes = vec![
        Node {
            name: "A"
        },
        Node {
            name: "B"
        },
    ];

    let edges = vec![
        Edge {
            name: "E1",
            weight: 30,
            from: "A",
            to: "B",
        },
    ];

    let trains = vec![
        Train {
            name: "Q1",
            capacity: 2,
            start: "B",
        },
    ];

    let packages = vec![
        Package {
            name: "K1",
            weight: 1,
            start: "A",
            dest: "B",
        },
    ];

    graph.input(nodes, edges, trains, packages);

    graph
}

#[test]
fn test_shortest_path() {
    let mut graph = Graph::new();
    setup(&mut graph);

    let train_test = graph.trains[0].clone();
    let package_test = graph.packages[0].clone();

    let test = graph.shortest_path(train_test.start, package_test.start);
    let test2 = graph.shortest_path(package_test.start, package_test.dest);

    match test {
        Ok((a, b)) => {
            assert_eq!(a[0], Node { name: "A"});
            assert_eq!(b[0], 30);
        },
        Err(err) => panic!("test failed -> {}", err.message()),
    }

    match test2 {
        Ok((a, b)) => {
            assert_eq!(a[0], Node { name: "B"});
            assert_eq!(b[0], 30);
        },
        Err(err) => panic!("test failed -> {}", err.message()),
    }
}

#[test]
fn test_e2e() {
    let mut graph = Graph::new();
    setup(&mut graph);

    let test = graph.start().unwrap();
    assert_eq!(test.len(), 1);
    for moves in test {
        assert_eq!(moves, vec![
            Move {
                w: 0,
                t: "Q1",
                n1: "B",
                p1: "",
                n2: "A",
                p2: "",
            },
            Move {
                w: 30,
                t: "Q1",
                n1: "A",
                p1: "K1",
                n2: "B",
                p2: "K1",
            },
        ]);
    }
}
