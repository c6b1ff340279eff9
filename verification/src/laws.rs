//! What holds of routes, assignments and timelines, whatever the network.

use vstd::prelude::*;
use crate::model::{Graph, Move, Node, Package, PlanError, Train};
use crate::network::{
    first_unknown, lemma_all_known, lemma_index_first, lemma_matrix_symmetric,
    lemma_well_formed_connections,
};
use crate::paths::{
    chosen, distance, hop_weights, is_shortest, lemma_chosen, lemma_distance_self,
    lemma_distance_symmetric, lemma_weightless_walk, reachable, total, walk_between,
};
use crate::planner::plans_view;
use crate::route::{route_cost, route_view, stops};
use crate::timeline::timeline;

verus! {

/// A route follows a shortest walk between its two locations, and its hop
/// weights sum to their distance.
pub proof fn lemma_route_is_shortest(graph: Graph, src: &'static str, dest: &'static str)
    requires
        graph.route(src, dest) is Ok,
    ensures
        graph.index(src@) is Some,
        graph.index(dest@) is Some,
        ({
            let m = graph.adjacency();
            let s = graph.index(src@).unwrap();
            let t = graph.index(dest@).unwrap();
            &&& is_shortest(m, chosen(m, s, t), s, t)
            &&& graph.route(src, dest) == Ok::<(Seq<Node>, Seq<u32>), PlanError>(
                (stops(graph.nodes@, chosen(m, s, t)), hop_weights(m, chosen(m, s, t))),
            )
            &&& distance(m, s, t) == Some(route_cost(graph.route(src, dest)))
        }),
{
    let m = graph.adjacency();
    let s = graph.index(src@).unwrap();
    let t = graph.index(dest@).unwrap();
    lemma_chosen(m, s, t);
}

/// Where one walk alone is shortest between two locations, the route
/// follows that walk, and costs the distance between them.
pub proof fn lemma_route_is_the_only_shortest(
    graph: Graph,
    src: &'static str,
    dest: &'static str,
    q: Seq<int>,
)
    requires
        graph.connections_sound(),
        graph.index(src@) is Some,
        graph.index(dest@) is Some,
        is_shortest(
            graph.adjacency(),
            q,
            graph.index(src@).unwrap(),
            graph.index(dest@).unwrap(),
        ),
        forall|r: Seq<int>| #[trigger]
            is_shortest(graph.adjacency(), r, graph.index(src@).unwrap(), graph.index(dest@).unwrap())
                ==> r == q,
    ensures
        graph.route(src, dest) == Ok::<(Seq<Node>, Seq<u32>), PlanError>(
            (stops(graph.nodes@, q), hop_weights(graph.adjacency(), q)),
        ),
        distance(graph.adjacency(), graph.index(src@).unwrap(), graph.index(dest@).unwrap())
            == Some(total(hop_weights(graph.adjacency(), q))),
{
    let m = graph.adjacency();
    let s = graph.index(src@).unwrap();
    let t = graph.index(dest@).unwrap();
    assert(walk_between(m, q, s, t));
    lemma_chosen(m, s, t);
}

/// The route from a location to itself has no stops and no hops.
pub proof fn lemma_route_to_self(graph: Graph, name: &'static str)
    requires
        graph.connections_sound(),
        graph.index(name@) is Some,
    ensures
        graph.route(name, name) == Ok::<(Seq<Node>, Seq<u32>), PlanError>(
            (Seq::<Node>::empty(), Seq::<u32>::empty()),
        ),
{
    let m = graph.adjacency();
    let s = graph.index(name@).unwrap();
    lemma_index_first(graph.names(), name@);
    lemma_distance_self(m, s);
    assert(walk_between(m, seq![s], s, s));
    lemma_chosen(m, s, s);
    let p = chosen(m, s, s);
    lemma_weightless_walk(m, p);
    assert(stops(graph.nodes@, p) =~= Seq::<Node>::empty());
    assert(hop_weights(m, p) =~= Seq::<u32>::empty());
}

/// Between two locations of a network whose connections are sound there is
/// a route exactly where a walk leads from one to the other; where none
/// does, the query fails with `NoPath`.
pub proof fn lemma_route_needs_a_walk(graph: Graph, src: &'static str, dest: &'static str)
    requires
        graph.connections_sound(),
        graph.index(src@) is Some,
        graph.index(dest@) is Some,
    ensures
        graph.route(src, dest) is Ok <==> reachable(
            graph.adjacency(),
            graph.index(src@).unwrap(),
            graph.index(dest@).unwrap(),
        ),
        graph.route(src, dest) is Err ==> graph.route(src, dest) == Err::<
            (Seq<Node>, Seq<u32>),
            PlanError,
        >(PlanError::NoPath { from: src, to: dest }),
{
}

/// There is a route from one location to another exactly where there is
/// one back, and the two cost the same.
pub proof fn lemma_route_symmetric(graph: Graph, a: &'static str, b: &'static str)
    ensures
        graph.route(a, b) is Ok <==> graph.route(b, a) is Ok,
        route_cost(graph.route(a, b)) == route_cost(graph.route(b, a)),
{
    let m = graph.adjacency();
    lemma_matrix_symmetric(graph.names(), graph.edges@);
    if graph.connections_sound() && graph.index(a@) is Some
        && graph.index(b@) is Some {
        let s = graph.index(a@).unwrap();
        let t = graph.index(b@).unwrap();
        lemma_distance_symmetric(m, s, t);
        if reachable(m, s, t) {
            lemma_chosen(m, s, t);
            lemma_chosen(m, t, s);
        }
    }
}

/// Two answers to the same route query on the same network are the same.
pub proof fn lemma_route_repeatable(
    graph: Graph,
    src: &'static str,
    dest: &'static str,
    first: Result<(Vec<Node>, Vec<u32>), PlanError>,
    second: Result<(Vec<Node>, Vec<u32>), PlanError>,
)
    requires
        route_view(first) == graph.route(src, dest),
        route_view(second) == graph.route(src, dest),
    ensures
        route_view(first) == route_view(second),
{
}

/// Two runs of the planner on the same network give the same plans.
pub proof fn lemma_plans_repeatable(
    graph: Graph,
    first: Result<Vec<Vec<Move>>, PlanError>,
    second: Result<Vec<Vec<Move>>, PlanError>,
)
    requires
        plans_view(first) == graph.plans(),
        plans_view(second) == graph.plans(),
    ensures
        plans_view(first) == plans_view(second),
{
}

/// Where a vehicle is blocked, one is the first to be.
proof fn lemma_first_blocked_exists(graph: Graph, package: Package, j: int)
    requires
        graph.blocked(package, j),
    ensures
        exists|k: int| graph.first_blocked(package, k),
    decreases j,
{
    if exists|k: int| 0 <= k < j && graph.blocked(package, k) {
        let k = choose|k: int| 0 <= k < j && graph.blocked(package, k);
        lemma_first_blocked_exists(graph, package, k);
    } else {
        assert(graph.first_blocked(package, j));
    }
}

/// Of the first `k` vehicles, none of them blocked, the one that reaches the
/// origin of the cargo item at the least cost, and first among equals.
proof fn lemma_best_below(graph: Graph, package: Package, k: int) -> (best: Option<int>)
    requires
        0 <= k <= graph.trains@.len(),
        forall|j: int| !#[trigger] graph.blocked(package, j),
    ensures
        match best {
            Some(i) => 0 <= i < k && graph.able(package, i) && forall|j: int|
                0 <= j < k && #[trigger] graph.able(package, j) ==> graph.approach_cost(package, i)
                    <= graph.approach_cost(package, j) && (graph.approach_cost(package, j)
                    == graph.approach_cost(package, i) ==> i <= j),
            None => forall|j: int| 0 <= j < k ==> !#[trigger] graph.able(package, j),
        },
    decreases k,
{
    if k == 0 {
        None
    } else {
        let before = lemma_best_below(graph, package, k - 1);
        if graph.able(package, k - 1) {
            match before {
                None => Some(k - 1),
                Some(i) => if graph.approach_cost(package, k - 1) < graph.approach_cost(package, i) {
                    Some(k - 1)
                } else {
                    Some(i)
                },
            }
        } else {
            before
        }
    }
}

/// Where a delivery is planned, a vehicle is assigned to it, and the plan is
/// the timeline of that vehicle along its route to the origin and on to the
/// destination.
pub proof fn lemma_plan_has_carrier(graph: Graph, package: Package)
    requires
        graph.plan(package) is Ok,
    ensures
        graph.assigned(package, graph.carrier(package)),
        graph.route(package.start, package.dest) is Ok,
        ({
            let i = graph.carrier(package);
            let (path, hops) = graph.approach(package, i)->Ok_0;
            let (more_path, more_hops) = graph.route(package.start, package.dest)->Ok_0;
            graph.plan(package) == Ok::<Seq<Move>, PlanError>(
                timeline(graph.trains@[i], path + more_path, package, hops + more_hops),
            )
        }),
{
    assert forall|j: int| !#[trigger] graph.blocked(package, j) by {
        if graph.blocked(package, j) {
            lemma_first_blocked_exists(graph, package, j);
        }
    }
    let best = lemma_best_below(graph, package, graph.trains@.len() as int);
    let i = best.unwrap();
    assert(!graph.blocked(package, i));
    assert forall|j: int| #[trigger]
        graph.able(package, j) && graph.approach(package, j) is Ok implies graph.approach_cost(
        package,
        i,
    ) <= graph.approach_cost(package, j) && (graph.approach_cost(package, j)
        == graph.approach_cost(package, i) ==> i <= j) by {}
    assert(graph.assigned(package, i));
}

/// Of two vehicles that can carry a cargo item and reach its origin at the
/// same cost, the one listed first carries it.
pub proof fn lemma_first_listed_wins(graph: Graph, package: Package, j: int)
    requires
        graph.plan(package) is Ok,
        graph.able(package, j),
        graph.approach_cost(package, j) == graph.approach_cost(package, graph.carrier(package)),
    ensures
        graph.carrier(package) <= j,
{
    lemma_plan_has_carrier(graph, package);
    if graph.blocked(package, j) {
        lemma_first_blocked_exists(graph, package, j);
    }
}

/// A timeline has as many movements as the path has locations.
pub proof fn lemma_timeline_length(
    train: Train,
    path: Seq<Node>,
    package: Package,
    duration: Seq<u32>,
)
    ensures
        timeline(train, path, package, duration).len() == path.len(),
{
}

/// The planner gives one plan for each cargo item, in their order.
pub proof fn lemma_one_plan_each(graph: Graph, packages: Seq<Package>)
    requires
        graph.plans_of(packages) is Ok,
    ensures
        graph.plans_of(packages)->Ok_0.len() == packages.len(),
        forall|k: int|
            0 <= k < packages.len() ==> graph.plan(#[trigger] packages[k]) == Ok::<
                Seq<Move>,
                PlanError,
            >(graph.plans_of(packages)->Ok_0[k]),
    decreases packages.len(),
{
    if packages.len() > 0 {
        let front = packages.drop_last();
        lemma_one_plan_each(graph, front);
        assert forall|k: int| 0 <= k < packages.len() implies graph.plan(#[trigger] packages[k])
            == Ok::<Seq<Move>, PlanError>(graph.plans_of(packages)->Ok_0[k]) by {
            if k < front.len() {
                assert(front[k] == packages[k]);
            }
        }
    }
}

/// In a network that refers to known locations only, a route between two
/// known locations fails, if it fails, with `NoPath`.
pub proof fn lemma_route_between_known(graph: Graph, src: &'static str, dest: &'static str)
    requires
        graph.well_formed(),
        graph.names().contains(src@),
        graph.names().contains(dest@),
    ensures
        graph.route(src, dest) is Err ==> graph.route(src, dest) == Err::<
            (Seq<Node>, Seq<u32>),
            PlanError,
        >(PlanError::NoPath { from: src, to: dest }),
{
    let names = graph.names();
    lemma_well_formed_connections(graph);
    lemma_index_first(names, src@);
    lemma_index_first(names, dest@);
}

/// In a network that refers to known locations only, no delivery fails with
/// `UnknownLocation`.
pub proof fn lemma_plan_failures(graph: Graph, k: int)
    requires
        graph.well_formed(),
        0 <= k < graph.packages@.len(),
    ensures
        graph.plan(graph.packages@[k]) is Err ==> !(graph.plan(graph.packages@[k])->Err_0
            is UnknownLocation),
{
    let names = graph.names();
    let refs = graph.referred();
    let package = graph.packages@[k];
    let before = 2 * graph.edges@.len() + graph.trains@.len();
    lemma_all_known(names, refs);
    assert(refs[before + 2 * k] == package.start);
    assert(refs[before + 2 * k + 1] == package.dest);
    if exists|j: int| graph.first_blocked(package, j) {
        let j = choose|j: int| graph.first_blocked(package, j);
        assert(graph.blocked(package, j));
        assert(refs[2 * graph.edges@.len() + j] == graph.trains@[j].start);
        lemma_route_between_known(graph, graph.trains@[j].start, package.start);
    }
    lemma_route_between_known(graph, package.start, package.dest);
}

/// In a network that refers to known locations only, no run of deliveries
/// fails with `UnknownLocation`.
proof fn lemma_plans_of_failures(graph: Graph, k: int)
    requires
        graph.well_formed(),
        0 <= k <= graph.packages@.len(),
    ensures
        graph.plans_of(graph.packages@.take(k)) is Err ==> !(graph.plans_of(
            graph.packages@.take(k),
        )->Err_0 is UnknownLocation),
    decreases k,
{
    if k > 0 {
        assert(graph.packages@.take(k).drop_last() =~= graph.packages@.take(k - 1));
        lemma_plans_of_failures(graph, k - 1);
        lemma_plan_failures(graph, k - 1);
    }
}

/// The planner fails with `UnknownLocation` only before any delivery is
/// planned: the name is the first that the network refers to and does not
/// have.
pub proof fn lemma_unknown_location_stops_planning(graph: Graph, name: &'static str)
    requires
        graph.plans() == Err::<Seq<Seq<Move>>, PlanError>(PlanError::UnknownLocation { name }),
    ensures
        first_unknown(graph.names(), graph.referred()) == Some(name),
{
    if first_unknown(graph.names(), graph.referred()) is None {
        lemma_plans_of_failures(graph, graph.packages@.len() as int);
        assert(graph.packages@.take(graph.packages@.len() as int) =~= graph.packages@);
    }
}

} // verus!
