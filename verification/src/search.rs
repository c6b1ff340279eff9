//! The shortest-path engine: distances from one source by repeated selection
//! of the nearest unvisited node, and the walk that the predecessors give.

use vstd::prelude::*;
use crate::model::Graph;
use crate::paths::{
    chosen_hop, chosen_walk, distance, hop, lemma_distance_at_most, lemma_distance_hop,
    lemma_distance_self, lemma_distance_walk, lemma_walk_drop_last, lemma_walk_nodes,
    lemma_walk_push, linked, nearer, parent, reachable, square, tight, walk_between, walk_weight,
    weights,
};

verus! {

/// Distance `a` is no longer than distance `b`; an absent distance is longer
/// than any other.
pub open spec fn at_most(a: Option<u128>, b: Option<u128>) -> bool {
    match (a, b) {
        (_, None) => true,
        (None, Some(_)) => false,
        (Some(x), Some(y)) => x <= y,
    }
}

/// `u` is the unvisited node to visit next: none is at a shorter distance,
/// and none at the same distance has a lower index.
pub open spec fn is_pick(dist: Seq<Option<u128>>, seen: Seq<bool>, u: int) -> bool {
    &&& 0 <= u < seen.len()
    &&& !seen[u]
    &&& forall|j: int|
        0 <= j < seen.len() && !#[trigger] seen[j] ==> at_most(dist[u], dist[j]) && (dist[j]
            == dist[u] ==> u <= j)
}

/// A distance as a number, where there is one.
pub open spec fn known(d: Option<u128>) -> Option<nat> {
    match d {
        Some(x) => Some(x as nat),
        None => None,
    }
}

/// The node indices of a path.
pub open spec fn ids(p: Seq<usize>) -> Seq<int> {
    Seq::new(p.len(), |k: int| p[k] as int)
}

/// How many nodes are still unvisited.
spec fn unseen(seen: Seq<bool>) -> nat
    decreases seen.len(),
{
    if seen.len() == 0 {
        0
    } else {
        unseen(seen.drop_last()) + if seen.last() {
            0nat
        } else {
            1nat
        }
    }
}

/// `u` has been visited, is at a known distance and has a hop to `v`.
spec fn feeds(
    m: Seq<Seq<u32>>,
    dist: Seq<Option<u128>>,
    seen: Seq<bool>,
    u: int,
    v: int,
) -> bool {
    0 <= u < seen.len() && seen[u] && dist[u] is Some && linked(m, u, v)
}

/// The predecessor of `v` is the visited node that gives `v` its distance,
/// and of those that do, the one that ranks first.
spec fn entered(
    m: Seq<Seq<u32>>,
    s: int,
    dist: Seq<Option<u128>>,
    seen: Seq<bool>,
    prev: Seq<Option<usize>>,
    v: int,
) -> bool {
    &&& prev[v] is Some
    &&& feeds(m, dist, seen, prev[v].unwrap() as int, v)
    &&& dist[v].unwrap() == dist[prev[v].unwrap() as int].unwrap() + m[prev[v].unwrap() as int][v]
    &&& forall|x: int| #[trigger]
        feeds(m, dist, seen, x, v) && dist[x].unwrap() + m[x][v] == dist[v].unwrap() ==> x
            == prev[v].unwrap() || nearer(m, s, prev[v].unwrap() as int, x)
}

/// What holds of the search between two rounds: visited nodes are at their
/// true distance and rank before unvisited ones, and every node's distance
/// and predecessor are the best that hops out of visited nodes give.
spec fn settled(
    m: Seq<Seq<u32>>,
    s: int,
    dist: Seq<Option<u128>>,
    seen: Seq<bool>,
    prev: Seq<Option<usize>>,
) -> bool {
    &&& 0 <= s < m.len()
    &&& dist.len() == m.len()
    &&& seen.len() == m.len()
    &&& prev.len() == m.len()
    &&& dist[s] == Some(0u128)
    &&& prev[s] is None
    &&& forall|v: int| 0 <= v < m.len() && #[trigger] seen[v] ==> known(dist[v]) == distance(m, s, v)
    &&& forall|u: int, v: int|
        0 <= u < m.len() && 0 <= v < m.len() && #[trigger] seen[u] && !#[trigger] seen[v]
            ==> nearer(m, s, u, v)
    &&& forall|u: int, v: int| #[trigger]
        feeds(m, dist, seen, u, v) && v != s ==> dist[v] is Some && dist[v].unwrap()
            <= dist[u].unwrap() + m[u][v]
    &&& forall|v: int|
        0 <= v < m.len() && v != s && dist[v] is Some ==> #[trigger] entered(
            m,
            s,
            dist,
            seen,
            prev,
            v,
        )
    &&& forall|v: int| 0 <= v < m.len() && (#[trigger] dist[v]) is None ==> prev[v] is None
}

/// One round's update of a node's distance: a hop of weight `w` out of a node
/// at distance `du` gives something shorter.
spec fn improves(old_dist: Option<u128>, du: u128, w: u32) -> bool {
    w > 0 && (old_dist is None || du + w < old_dist.unwrap())
}

/// `dist2` and `prev2` are `dist` and `prev` after the hops out of `u` have
/// been tried.
spec fn relaxed(
    m: Seq<Seq<u32>>,
    dist: Seq<Option<u128>>,
    prev: Seq<Option<usize>>,
    u: int,
    dist2: Seq<Option<u128>>,
    prev2: Seq<Option<usize>>,
) -> bool {
    &&& dist2.len() == dist.len()
    &&& prev2.len() == prev.len()
    &&& match dist[u] {
        None => dist2 == dist && prev2 == prev,
        Some(du) => forall|i: int|
            0 <= i < dist.len() ==> if improves(dist[i], du, m[u][i]) {
                &&& (#[trigger] dist2[i]) is Some
                &&& dist2[i].unwrap() == du + m[u][i]
                &&& prev2[i] is Some
                &&& prev2[i].unwrap() == u
            } else {
                dist2[i] == dist[i] && prev2[i] == prev[i]
            },
    }
}

/// Visiting a node leaves one unvisited node less.
proof fn lemma_unseen_mark(seen: Seq<bool>, u: int)
    requires
        0 <= u < seen.len(),
        !seen[u],
    ensures
        unseen(seen.update(u, true)) + 1 == unseen(seen),
    decreases seen.len(),
{
    let after = seen.update(u, true);
    if u == seen.len() - 1 {
        assert(after.drop_last() =~= seen.drop_last());
    } else {
        assert(after.drop_last() =~= seen.drop_last().update(u, true));
        lemma_unseen_mark(seen.drop_last(), u);
    }
}

/// Before the first visit every node is unvisited.
proof fn lemma_unseen_fresh(seen: Seq<bool>)
    requires
        forall|j: int| 0 <= j < seen.len() ==> !seen[j],
    ensures
        unseen(seen) == seen.len(),
    decreases seen.len(),
{
    if seen.len() > 0 {
        lemma_unseen_fresh(seen.drop_last());
    }
}

/// An unvisited node, where the count says that there is one.
proof fn lemma_unseen_some(seen: Seq<bool>) -> (j: int)
    requires
        unseen(seen) > 0,
    ensures
        0 <= j < seen.len(),
        !seen[j],
    decreases seen.len(),
{
    if seen.last() {
        lemma_unseen_some(seen.drop_last())
    } else {
        seen.len() - 1
    }
}

/// Where at most one node is unvisited, two unvisited nodes are the same.
proof fn lemma_unseen_lone(seen: Seq<bool>, a: int, b: int)
    requires
        unseen(seen) <= 1,
        0 <= a < seen.len(),
        0 <= b < seen.len(),
        !seen[a],
        !seen[b],
    ensures
        a == b,
{
    if a != b {
        lemma_unseen_mark(seen, a);
        let after = seen.update(a, true);
        lemma_unseen_zero(after, b);
    }
}

/// Where no node is unvisited, every node has been visited.
proof fn lemma_unseen_zero(seen: Seq<bool>, b: int)
    requires
        unseen(seen) == 0,
        0 <= b < seen.len(),
    ensures
        seen[b],
    decreases seen.len(),
{
    if b < seen.len() - 1 {
        lemma_unseen_zero(seen.drop_last(), b);
    }
}

/// No walk to an unvisited node weighs less than the distance of the node to
/// visit next.
proof fn lemma_floor(
    m: Seq<Seq<u32>>,
    s: int,
    dist: Seq<Option<u128>>,
    seen: Seq<bool>,
    prev: Seq<Option<usize>>,
    u: int,
    q: Seq<int>,
    y: int,
)
    requires
        settled(m, s, dist, seen, prev),
        is_pick(dist, seen, u),
        walk_between(m, q, s, y),
        !seen[y],
    ensures
        dist[u] is Some,
        dist[u].unwrap() <= walk_weight(m, q),
    decreases q.len(),
{
    lemma_walk_nodes(m, q, q.len() - 1);
    if y == s {
        assert(!seen[s]);
    } else {
        lemma_walk_drop_last(m, q);
        let x = q[q.len() - 2];
        let front = q.drop_last();
        lemma_walk_nodes(m, q, q.len() - 2);
        if seen[x] {
            lemma_distance_at_most(m, s, x, front);
            assert(feeds(m, dist, seen, x, y));
        } else {
            lemma_floor(m, s, dist, seen, prev, u, front, x);
        }
    }
}

/// A walk from the source that weighs what the search holds as the distance
/// of `v`.
proof fn lemma_achieved(
    m: Seq<Seq<u32>>,
    s: int,
    dist: Seq<Option<u128>>,
    seen: Seq<bool>,
    prev: Seq<Option<usize>>,
    v: int,
) -> (p: Seq<int>)
    requires
        settled(m, s, dist, seen, prev),
        0 <= v < m.len(),
        dist[v] is Some,
    ensures
        walk_between(m, p, s, v),
        walk_weight(m, p) == dist[v].unwrap(),
{
    if v == s {
        lemma_distance_self(m, s);
        seq![s]
    } else {
        assert(entered(m, s, dist, seen, prev, v));
        let x = prev[v].unwrap() as int;
        assert(seen[x]);
        let front = lemma_distance_walk(m, s, x);
        lemma_walk_push(m, front, v);
        front.push(v)
    }
}

/// The node to visit next is at its true distance.
proof fn lemma_pick_distance(
    m: Seq<Seq<u32>>,
    s: int,
    dist: Seq<Option<u128>>,
    seen: Seq<bool>,
    prev: Seq<Option<usize>>,
    u: int,
)
    requires
        settled(m, s, dist, seen, prev),
        is_pick(dist, seen, u),
    ensures
        known(dist[u]) == distance(m, s, u),
{
    if dist[u] is Some {
        let p = lemma_achieved(m, s, dist, seen, prev, u);
        lemma_distance_at_most(m, s, u, p);
    }
    if distance(m, s, u) is Some {
        let q = lemma_distance_walk(m, s, u);
        lemma_floor(m, s, dist, seen, prev, u, q, u);
    }
}

/// The node to visit next ranks before every other unvisited node.
proof fn lemma_pick_first(
    m: Seq<Seq<u32>>,
    s: int,
    dist: Seq<Option<u128>>,
    seen: Seq<bool>,
    prev: Seq<Option<usize>>,
    u: int,
    y: int,
)
    requires
        settled(m, s, dist, seen, prev),
        is_pick(dist, seen, u),
        0 <= y < m.len(),
        !seen[y],
        y != u,
    ensures
        nearer(m, s, u, y),
{
    lemma_pick_distance(m, s, dist, seen, prev, u);
    if distance(m, s, y) is Some {
        let q = lemma_distance_walk(m, s, y);
        lemma_floor(m, s, dist, seen, prev, u, q, y);
        if distance(m, s, y).unwrap() == dist[u].unwrap() {
            if y == s {
                assert(dist[y] == dist[u]);
            } else {
                lemma_walk_drop_last(m, q);
                let x = q[q.len() - 2];
                let front = q.drop_last();
                lemma_walk_nodes(m, q, q.len() - 2);
                if !seen[x] {
                    lemma_floor(m, s, dist, seen, prev, u, front, x);
                    assert(false);
                } else {
                    lemma_distance_at_most(m, s, x, front);
                    assert(feeds(m, dist, seen, x, y));
                    assert(dist[y] == dist[u]);
                }
            }
            assert(u <= y);
        }
    } else {
        if distance(m, s, u) is None {
            assert(dist[u] is None);
            assert(dist[y] is None);
            assert(dist[y] == dist[u]);
            assert(u <= y);
        }
    }
}

/// What a round does to the distance and the predecessor of node `i`.
proof fn lemma_relaxed_at(
    m: Seq<Seq<u32>>,
    dist: Seq<Option<u128>>,
    prev: Seq<Option<usize>>,
    u: int,
    dist2: Seq<Option<u128>>,
    prev2: Seq<Option<usize>>,
    i: int,
)
    requires
        relaxed(m, dist, prev, u, dist2, prev2),
        0 <= i < dist.len(),
    ensures
        dist[u] is None ==> dist2[i] == dist[i] && prev2[i] == prev[i],
        dist[u] is Some && improves(dist[i], dist[u].unwrap(), m[u][i]) ==> {
            &&& dist2[i] is Some
            &&& dist2[i].unwrap() == dist[u].unwrap() + m[u][i]
            &&& prev2[i] is Some
            &&& prev2[i].unwrap() == u
        },
        dist[u] is Some && !improves(dist[i], dist[u].unwrap(), m[u][i]) ==> dist2[i] == dist[i]
            && prev2[i] == prev[i],
{
    if dist[u] is Some {
        let probe = dist2[i];
    }
}

/// A round leaves the source and every visited node as they were.
proof fn lemma_round_keeps(
    m: Seq<Seq<u32>>,
    s: int,
    dist: Seq<Option<u128>>,
    seen: Seq<bool>,
    prev: Seq<Option<usize>>,
    u: int,
    dist2: Seq<Option<u128>>,
    prev2: Seq<Option<usize>>,
    v: int,
)
    requires
        settled(m, s, dist, seen, prev),
        is_pick(dist, seen, u),
        relaxed(m, dist, prev, u, dist2, prev2),
        0 <= v < m.len(),
        seen[v] || v == u || v == s,
    ensures
        dist2[v] == dist[v],
        prev2[v] == prev[v],
{
    lemma_pick_distance(m, s, dist, seen, prev, u);
    lemma_relaxed_at(m, dist, prev, u, dist2, prev2, v);
    if dist[u] is Some && improves(dist[v], dist[u].unwrap(), m[u][v]) {
        if v != s {
            assert(known(dist[v]) == distance(m, s, v));
            lemma_distance_hop(m, s, u, v);
            assert(false);
        }
    }
}

/// A round of the search keeps what holds between rounds.
proof fn lemma_round(
    m: Seq<Seq<u32>>,
    s: int,
    dist: Seq<Option<u128>>,
    seen: Seq<bool>,
    prev: Seq<Option<usize>>,
    u: int,
    dist2: Seq<Option<u128>>,
    seen2: Seq<bool>,
    prev2: Seq<Option<usize>>,
)
    requires
        settled(m, s, dist, seen, prev),
        is_pick(dist, seen, u),
        seen2 == seen.update(u, true),
        relaxed(m, dist, prev, u, dist2, prev2),
    ensures
        settled(m, s, dist2, seen2, prev2),
{
    lemma_pick_distance(m, s, dist, seen, prev, u);
    lemma_round_keeps(m, s, dist, seen, prev, u, dist2, prev2, s);
    assert forall|v: int| 0 <= v < m.len() && #[trigger] seen2[v] implies known(dist2[v])
        == distance(m, s, v) by {
        lemma_round_keeps(m, s, dist, seen, prev, u, dist2, prev2, v);
        if v != u {
            assert(seen[v]);
        }
    }
    assert forall|a: int, b: int|
        0 <= a < m.len() && 0 <= b < m.len() && #[trigger] seen2[a] && !#[trigger] seen2[b] implies nearer(
        m,
        s,
        a,
        b,
    ) by {
        assert(!seen[b]);
        if a == u {
            lemma_pick_first(m, s, dist, seen, prev, u, b);
        } else {
            assert(seen[a]);
        }
    }
    assert forall|x: int, v: int| #[trigger] feeds(m, dist2, seen2, x, v) && v != s implies dist2[v] is Some
        && dist2[v].unwrap() <= dist2[x].unwrap() + m[x][v] by {
        lemma_round_keeps(m, s, dist, seen, prev, u, dist2, prev2, x);
        lemma_round_lowers(m, dist, prev, u, dist2, prev2, v);
        if x != u {
            assert(feeds(m, dist, seen, x, v));
        }
    }
    assert forall|v: int| 0 <= v < m.len() && v != s && dist2[v] is Some implies #[trigger] entered(
        m,
        s,
        dist2,
        seen2,
        prev2,
        v,
    ) by {
        lemma_round_entered(m, s, dist, seen, prev, u, dist2, seen2, prev2, v);
    }
    assert forall|v: int| 0 <= v < m.len() && (#[trigger] dist2[v]) is None implies prev2[v] is None by {
        lemma_round_lowers(m, dist, prev, u, dist2, prev2, v);
    }
}

/// A round never lengthens a distance, and changes a predecessor only where
/// it shortens one.
proof fn lemma_round_lowers(
    m: Seq<Seq<u32>>,
    dist: Seq<Option<u128>>,
    prev: Seq<Option<usize>>,
    u: int,
    dist2: Seq<Option<u128>>,
    prev2: Seq<Option<usize>>,
    v: int,
)
    requires
        relaxed(m, dist, prev, u, dist2, prev2),
        0 <= u < dist.len(),
        0 <= v < dist.len(),
    ensures
        at_most(dist2[v], dist[v]),
        dist2[v] is None ==> dist[v] is None && prev2[v] == prev[v],
        dist[u] is Some && m[u][v] > 0 ==> dist2[v] is Some && dist2[v].unwrap() <= dist[u].unwrap()
            + m[u][v],
{
    lemma_relaxed_at(m, dist, prev, u, dist2, prev2, v);
}

/// After a round every node at a known distance has the predecessor that
/// gives it this distance and ranks first.
proof fn lemma_round_entered(
    m: Seq<Seq<u32>>,
    s: int,
    dist: Seq<Option<u128>>,
    seen: Seq<bool>,
    prev: Seq<Option<usize>>,
    u: int,
    dist2: Seq<Option<u128>>,
    seen2: Seq<bool>,
    prev2: Seq<Option<usize>>,
    v: int,
)
    requires
        settled(m, s, dist, seen, prev),
        is_pick(dist, seen, u),
        seen2 == seen.update(u, true),
        relaxed(m, dist, prev, u, dist2, prev2),
        0 <= v < m.len(),
        v != s,
        dist2[v] is Some,
    ensures
        entered(m, s, dist2, seen2, prev2, v),
{
    lemma_round_keeps(m, s, dist, seen, prev, u, dist2, prev2, u);
    lemma_relaxed_at(m, dist, prev, u, dist2, prev2, v);
    if dist[u] is Some && improves(dist[v], dist[u].unwrap(), m[u][v]) {
        assert(feeds(m, dist2, seen2, u, v));
        assert forall|x: int| #[trigger]
            feeds(m, dist2, seen2, x, v) && dist2[x].unwrap() + m[x][v]
                == dist2[v].unwrap() implies x == prev2[v].unwrap() || nearer(
            m,
            s,
            prev2[v].unwrap() as int,
            x,
        ) by {
            if x != u {
                lemma_round_keeps(m, s, dist, seen, prev, u, dist2, prev2, x);
                assert(feeds(m, dist, seen, x, v));
                assert(false);
            }
        }
    } else {
        assert(entered(m, s, dist, seen, prev, v));
        let p = prev[v].unwrap() as int;
        lemma_round_keeps(m, s, dist, seen, prev, u, dist2, prev2, p);
        assert(feeds(m, dist2, seen2, p, v));
        assert forall|x: int| #[trigger]
            feeds(m, dist2, seen2, x, v) && dist2[x].unwrap() + m[x][v]
                == dist2[v].unwrap() implies x == prev2[v].unwrap() || nearer(
            m,
            s,
            prev2[v].unwrap() as int,
            x,
        ) by {
            lemma_round_keeps(m, s, dist, seen, prev, u, dist2, prev2, x);
            if x != u {
                assert(feeds(m, dist, seen, x, v));
            } else {
                assert(seen[p] && !seen[u]);
            }
        }
    }
}

/// What the search holds once all nodes but one have been visited: every
/// distance is the true one, and every predecessor is the node's parent.
proof fn lemma_done(
    m: Seq<Seq<u32>>,
    s: int,
    dist: Seq<Option<u128>>,
    seen: Seq<bool>,
    prev: Seq<Option<usize>>,
    v: int,
)
    requires
        settled(m, s, dist, seen, prev),
        unseen(seen) <= 1,
        0 <= v < m.len(),
    ensures
        known(dist[v]) == distance(m, s, v),
        prev[v] is Some ==> parent(m, s, prev[v].unwrap() as int, v),
        prev[v] is None && dist[v] is Some ==> v == s,
{
    if !seen[v] {
        assert forall|j: int| 0 <= j < seen.len() && !#[trigger] seen[j] implies j == v by {
            lemma_unseen_lone(seen, j, v);
        }
        assert(is_pick(dist, seen, v));
        lemma_pick_distance(m, s, dist, seen, prev, v);
    }
    if prev[v] is None && dist[v] is Some && v != s {
        assert(entered(m, s, dist, seen, prev, v));
    }
    if prev[v] is Some {
        let p = prev[v].unwrap() as int;
        assert(dist[v] is Some);
        assert(entered(m, s, dist, seen, prev, v));
        assert(seen[p]);
        assert(tight(m, s, p, v));
        assert forall|x: int| #[trigger] tight(m, s, x, v) implies x == p || nearer(m, s, p, x) by {
            if !seen[x] {
                lemma_unseen_lone(seen, x, x);
                if !seen[v] {
                    lemma_unseen_lone(seen, x, v);
                }
                assert(seen[v] && !seen[x]);
                assert(nearer(m, s, v, x));
                assert(false);
            } else {
                assert(feeds(m, dist, seen, x, v));
            }
        }
    }
}


/// The distances once the hops from a node at distance `du` to the nodes
/// below `upto` have been tried; `row` holds the weights of its hops.
spec fn tried_dist(dist: Seq<Option<u128>>, du: u128, row: Seq<u32>, upto: int) -> Seq<
    Option<u128>,
> {
    Seq::new(
        dist.len(),
        |k: int|
            if k < upto && improves(dist[k], du, row[k]) {
                Some((du + row[k]) as u128)
            } else {
                dist[k]
            },
    )
}

/// The predecessors once the hops from node `u` at distance `du` to the
/// nodes below `upto` have been tried.
spec fn tried_prev(
    prev: Seq<Option<usize>>,
    dist: Seq<Option<u128>>,
    du: u128,
    row: Seq<u32>,
    u: usize,
    upto: int,
) -> Seq<Option<usize>> {
    Seq::new(
        prev.len(),
        |k: int|
            if k < upto && improves(dist[k], du, row[k]) {
                Some(u)
            } else {
                prev[k]
            },
    )
}

/// The search before its first round.
proof fn lemma_start(
    m: Seq<Seq<u32>>,
    s: int,
    dist: Seq<Option<u128>>,
    seen: Seq<bool>,
    prev: Seq<Option<usize>>,
)
    requires
        0 <= s < m.len(),
        dist.len() == m.len(),
        seen.len() == m.len(),
        prev.len() == m.len(),
        dist[s] == Some(0u128),
        forall|v: int| 0 <= v < m.len() && v != s ==> dist[v] is None,
        forall|v: int| 0 <= v < m.len() ==> !seen[v],
        forall|v: int| 0 <= v < m.len() ==> prev[v] is None,
    ensures
        settled(m, s, dist, seen, prev),
{
}

/// Whether distance `a` is shorter than distance `b`.
fn shorter(a: Option<u128>, b: Option<u128>) -> (less: bool)
    ensures
        less == !at_most(b, a),
{
    match (a, b) {
        (Some(x), Some(y)) => x < y,
        (Some(_), None) => true,
        _ => false,
    }
}

impl Graph {
    /// The unvisited node to visit next: the one at the least distance, and
    /// of several at that distance the one of lowest index. An absent
    /// distance counts as longer than any other. Where every node has been
    /// visited the result is 0.
    pub fn min_dist(dist: &Vec<Option<u128>>, seen: &Vec<bool>) -> (index: usize)
        requires
            dist.len() == seen.len(),
        ensures
            (exists|j: int| 0 <= j < seen.len() && !seen@[j]) ==> is_pick(dist@, seen@, index as int),
            (forall|j: int| 0 <= j < seen.len() ==> seen@[j]) ==> index == 0,
    {
        let n = seen.len();
        let mut index: usize = 0;
        let mut found = false;
        let mut i: usize = 0;
        while i < n
            invariant
                i <= n,
                n == seen.len(),
                n == dist.len(),
                !found ==> index == 0 && forall|j: int| 0 <= j < i ==> seen@[j],
                found ==> index < i && !seen@[index as int] && forall|j: int|
                    0 <= j < i && !#[trigger] seen@[j] ==> at_most(dist@[index as int], dist@[j])
                        && (dist@[j] == dist@[index as int] ==> index <= j),
            decreases n - i,
        {
            if !seen[i] {
                if !found {
                    found = true;
                    index = i;
                } else if shorter(dist[i], dist[index]) {
                    index = i;
                }
            }
            i += 1;
        }
        index
    }

    /// The distance from `src` to every node of the network `graph`, and for
    /// every node the predecessor from which the chosen shortest walk enters
    /// it. A node that cannot be reached has neither, and the source has no
    /// predecessor.
    ///
    /// The search visits all nodes but one, each time the nearest unvisited
    /// one, and tries the hops out of it. Distances are kept in 128 bits: a
    /// walk has fewer than 2^64 hops of less than 2^32 each.
    pub fn shortest_paths(graph: &Vec<Vec<u32>>, src: usize) -> (found: (
        Vec<Option<u128>>,
        Vec<Option<usize>>,
    ))
        requires
            square(weights(graph)),
            src < graph.len(),
        ensures
            found.0@.len() == graph@.len(),
            found.1@.len() == graph@.len(),
            forall|v: int|
                0 <= v < graph@.len() ==> known(#[trigger] found.0@[v]) == distance(
                    weights(graph),
                    src as int,
                    v,
                ),
            forall|v: int|
                0 <= v < graph@.len() ==> match #[trigger] found.1@[v] {
                    Some(p) => parent(weights(graph), src as int, p as int, v),
                    None => v == src || distance(weights(graph), src as int, v) is None,
                },
    {
        let n = graph.len();
        let ghost m = weights(graph);
        let mut dist: Vec<Option<u128>> = vec![None; n];
        let mut seen: Vec<bool> = vec![false; n];
        let mut prev: Vec<Option<usize>> = vec![None; n];
        dist[src] = Some(0);
        proof {
            lemma_start(m, src as int, dist@, seen@, prev@);
            lemma_unseen_fresh(seen@);
        }
        let mut round: usize = 0;
        while round < n - 1
            invariant
                n == graph.len(),
                m == weights(graph),
                square(m),
                src < n,
                round <= n - 1,
                settled(m, src as int, dist@, seen@, prev@),
                unseen(seen@) + round == n,
                forall|v: int|
                    0 <= v < n && (#[trigger] dist@[v]) is Some ==> dist@[v].unwrap() <= round
                        * 0xFFFF_FFFF,
            decreases n - round,
        {
            proof {
                let j = lemma_unseen_some(seen@);
            }
            let u = Graph::min_dist(&dist, &seen);
            let ghost dist0 = dist@;
            let ghost seen0 = seen@;
            let ghost prev0 = prev@;
            seen[u] = true;
            proof {
                lemma_unseen_mark(seen0, u as int);
            }
            match dist[u] {
                Some(du) => {
                    let mut i: usize = 0;
                    while i < n
                        invariant
                            i <= n,
                            n == graph.len(),
                            m == weights(graph),
                            square(m),
                            u < n,
                            round < n,
                            dist0.len() == n,
                            prev0.len() == n,
                            du <= round * 0xFFFF_FFFF,
                            dist@ == tried_dist(dist0, du, m[u as int], i as int),
                            prev@ == tried_prev(prev0, dist0, du, m[u as int], u, i as int),
                        decreases n - i,
                    {
                        assert(m[u as int] == graph@[u as int]@);
                        let w = graph[u][i];
                        if w > 0 {
                            let total: u128 = du + w as u128;
                            let better = match dist[i] {
                                None => true,
                                Some(d) => total < d,
                            };
                            if better {
                                dist[i] = Some(total);
                                prev[i] = Some(u);
                            }
                        }
                        i += 1;
                        assert(dist@ =~= tried_dist(dist0, du, m[u as int], i as int));
                        assert(prev@ =~= tried_prev(prev0, dist0, du, m[u as int], u, i as int));
                    }
                },
                None => {},
            }
            proof {
                assert(relaxed(m, dist0, prev0, u as int, dist@, prev@)) by {
                    if dist0[u as int] is Some {
                        let du = dist0[u as int].unwrap();
                        assert forall|i: int| 0 <= i < n implies if improves(
                            dist0[i],
                            du,
                            m[u as int][i],
                        ) {
                            &&& (#[trigger] dist@[i]) is Some
                            &&& dist@[i].unwrap() == du + m[u as int][i]
                            &&& prev@[i] is Some
                            &&& prev@[i].unwrap() == u
                        } else {
                            dist@[i] == dist0[i] && prev@[i] == prev0[i]
                        } by {
                            assert(dist0[u as int] is Some);
                        }
                    }
                }
                lemma_round(m, src as int, dist0, seen0, prev0, u as int, dist@, seen@, prev@);
            }
            round += 1;
        }
        proof {
            assert forall|v: int| 0 <= v < n implies known(#[trigger] dist@[v]) == distance(
                m,
                src as int,
                v,
            ) by {
                lemma_done(m, src as int, dist@, seen@, prev@, v);
            }
            assert forall|v: int| 0 <= v < n implies match #[trigger] prev@[v] {
                Some(p) => parent(m, src as int, p as int, v),
                None => v == src || distance(m, src as int, v) is None,
            } by {
                lemma_done(m, src as int, dist@, seen@, prev@, v);
            }
        }
        (dist, prev)
    }

    /// The chosen shortest walk from `src` to `dest` in the network `graph`,
    /// as node indices from `src` to `dest`; `None` where no walk leads
    /// there.
    ///
    /// Of several shortest walks the chosen one enters every node from the
    /// neighbour that ranks first among those ending a shortest walk to it:
    /// the nearest to `src`, and the lowest index among equally near ones.
    pub fn dijkstra(graph: &Vec<Vec<u32>>, src: usize, dest: usize) -> (path: Option<Vec<usize>>)
        requires
            square(weights(graph)),
            src < graph.len(),
            dest < graph.len(),
        ensures
            match path {
                Some(p) => chosen_walk(weights(graph), ids(p@), src as int, dest as int),
                None => !reachable(weights(graph), src as int, dest as int),
            },
    {
        let n = graph.len();
        let ghost m = weights(graph);
        let (dist, prev) = Graph::shortest_paths(graph, src);
        if dist[dest].is_none() {
            return None;
        }
        let mut path: Vec<usize> = Vec::new();
        path.push(dest);
        let mut cur = dest;
        let mut step = prev[cur];
        while step.is_some()
            invariant
                n == graph.len(),
                m == weights(graph),
                src < n,
                dest < n,
                dist@.len() == n,
                prev@.len() == n,
                forall|v: int|
                    0 <= v < n ==> known(#[trigger] dist@[v]) == distance(m, src as int, v),
                forall|v: int|
                    0 <= v < n ==> match #[trigger] prev@[v] {
                        Some(p) => parent(m, src as int, p as int, v),
                        None => v == src || distance(m, src as int, v) is None,
                    },
                cur < n,
                dist@[cur as int] is Some,
                step == prev@[cur as int],
                path@.len() >= 1,
                path@[0] == cur,
                path@.last() == dest,
                forall|k: int|
                    0 <= k < path@.len() - 1 ==> #[trigger] chosen_hop(m, src as int, ids(path@), k),
            decreases dist@[cur as int].unwrap(),
        {
            let p = step.unwrap();
            proof {
                assert(parent(m, src as int, p as int, cur as int));
                assert(tight(m, src as int, p as int, cur as int));
                assert(known(dist@[p as int]) == distance(m, src as int, p as int));
            }
            let ghost before = path@;
            path.insert(0, p);
            proof {
                assert forall|k: int| 0 <= k < path@.len() - 1 implies #[trigger] chosen_hop(
                    m,
                    src as int,
                    ids(path@),
                    k,
                ) by {
                    if k > 0 {
                        assert(chosen_hop(m, src as int, ids(before), k - 1));
                    }
                }
            }
            cur = p;
            step = prev[cur];
        }
        proof {
            let walk = ids(path@);
            assert(cur == src);
            assert forall|k: int| 0 <= k < walk.len() - 1 implies #[trigger] hop(m, walk, k) by {
                assert(chosen_hop(m, src as int, walk, k));
            }
        }
        Some(path)
    }
}

} // verus!
