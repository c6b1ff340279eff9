//! Walks through a weighted network, their weights, and the distance between
//! two of its nodes.
//!
//! A network is a matrix of hop weights: row `u`, column `v` holds the weight
//! of the hop from node `u` to node `v`, and `0` where there is none.

use vstd::prelude::*;

verus! {

/// The rows of a matrix, each as a sequence of weights.
pub open spec fn weights(g: &Vec<Vec<u32>>) -> Seq<Seq<u32>> {
    Seq::new(g@.len(), |i: int| g@[i]@)
}

/// Every row is as long as the matrix has rows.
pub open spec fn square(m: Seq<Seq<u32>>) -> bool {
    forall|i: int| 0 <= i < m.len() ==> (#[trigger] m[i]).len() == m.len()
}

/// Every hop weighs the same in both directions.
pub open spec fn symmetric(m: Seq<Seq<u32>>) -> bool {
    forall|i: int, j: int| 0 <= i < m.len() && 0 <= j < m.len() ==> #[trigger] m[i][j] == m[j][i]
}

/// There is a hop from node `u` to node `v`.
pub open spec fn linked(m: Seq<Seq<u32>>, u: int, v: int) -> bool {
    0 <= u < m.len() && 0 <= v < m.len() && m[u][v] > 0
}

/// The `k`-th step of `p` is a hop of the network.
pub open spec fn hop(m: Seq<Seq<u32>>, p: Seq<int>, k: int) -> bool {
    linked(m, p[k], p[k + 1])
}

/// `p` is a walk: at least one node, each joined to the next by a hop.
pub open spec fn is_walk(m: Seq<Seq<u32>>, p: Seq<int>) -> bool {
    &&& p.len() > 0
    &&& 0 <= p[0] < m.len()
    &&& forall|k: int| 0 <= k < p.len() - 1 ==> #[trigger] hop(m, p, k)
}

/// `p` is a walk that starts at `s` and ends at `t`.
pub open spec fn walk_between(m: Seq<Seq<u32>>, p: Seq<int>, s: int, t: int) -> bool {
    is_walk(m, p) && p[0] == s && p.last() == t
}

/// The sum of a sequence of weights.
pub open spec fn total(s: Seq<u32>) -> nat
    decreases s.len(),
{
    if s.len() == 0 {
        0
    } else {
        total(s.drop_last()) + s.last() as nat
    }
}

/// The weight of each hop along `p`, in order.
pub open spec fn hop_weights(m: Seq<Seq<u32>>, p: Seq<int>) -> Seq<u32> {
    Seq::new(
        if p.len() == 0 {
            0nat
        } else {
            (p.len() - 1) as nat
        },
        |k: int| m[p[k]][p[k + 1]],
    )
}

/// The weight of a walk: the sum of the weights of its hops.
pub open spec fn walk_weight(m: Seq<Seq<u32>>, p: Seq<int>) -> nat {
    total(hop_weights(m, p))
}

/// Some walk leads from `s` to `t`.
pub open spec fn reachable(m: Seq<Seq<u32>>, s: int, t: int) -> bool {
    exists|p: Seq<int>| walk_between(m, p, s, t)
}

/// `p` leads from `s` to `t`, and no walk from `s` to `t` weighs less.
pub open spec fn is_shortest(m: Seq<Seq<u32>>, p: Seq<int>, s: int, t: int) -> bool {
    &&& walk_between(m, p, s, t)
    &&& forall|q: Seq<int>| #[trigger] walk_between(m, q, s, t) ==> walk_weight(m, p) <= walk_weight(m, q)
}

/// The least weight of a walk from `s` to `t`; `None` where `t` cannot be
/// reached from `s`.
pub open spec fn distance(m: Seq<Seq<u32>>, s: int, t: int) -> Option<nat> {
    if reachable(m, s, t) {
        Some(walk_weight(m, choose|p: Seq<int>| is_shortest(m, p, s, t)))
    } else {
        None
    }
}

/// Node `u` ranks before node `v` as seen from `s`: it is nearer to `s`, or
/// as near and of lower index. A node that cannot be reached ranks after
/// every node that can.
pub open spec fn nearer(m: Seq<Seq<u32>>, s: int, u: int, v: int) -> bool {
    match (distance(m, s, u), distance(m, s, v)) {
        (Some(a), Some(b)) => a < b || (a == b && u < v),
        (Some(_), None) => true,
        (None, Some(_)) => false,
        (None, None) => u < v,
    }
}

/// The hop from `u` to `v` ends a shortest walk from `s` to `v`.
pub open spec fn tight(m: Seq<Seq<u32>>, s: int, u: int, v: int) -> bool {
    &&& linked(m, u, v)
    &&& distance(m, s, u) is Some
    &&& distance(m, s, v) == Some(distance(m, s, u).unwrap() + m[u][v] as nat)
}

/// `u` is the node from which the chosen shortest walk from `s` enters `v`:
/// of all nodes whose hop to `v` ends a shortest walk, the one that ranks
/// first.
pub open spec fn parent(m: Seq<Seq<u32>>, s: int, u: int, v: int) -> bool {
    &&& tight(m, s, u, v)
    &&& forall|x: int| #[trigger] tight(m, s, x, v) ==> x == u || nearer(m, s, u, x)
}

/// The `k`-th step of `p` enters its node from that node's parent.
pub open spec fn chosen_hop(m: Seq<Seq<u32>>, s: int, p: Seq<int>, k: int) -> bool {
    parent(m, s, p[k], p[k + 1])
}

/// `p` is the chosen shortest walk from `s` to `t`: it enters every node
/// from its parent.
pub open spec fn chosen_walk(m: Seq<Seq<u32>>, p: Seq<int>, s: int, t: int) -> bool {
    &&& walk_between(m, p, s, t)
    &&& forall|k: int| 0 <= k < p.len() - 1 ==> #[trigger] chosen_hop(m, s, p, k)
}

/// One more weight adds to the sum.
pub proof fn lemma_total_push(s: Seq<u32>, x: u32)
    ensures
        total(s.push(x)) == total(s) + x,
{
    assert(s.push(x).drop_last() =~= s);
}

/// The sum of two sequences in a row is the sum of their sums.
pub proof fn lemma_total_add(a: Seq<u32>, b: Seq<u32>)
    ensures
        total(a + b) == total(a) + total(b),
    decreases b.len(),
{
    if b.len() == 0 {
        assert(a + b =~= a);
    } else {
        assert((a + b).drop_last() =~= a + b.drop_last());
        lemma_total_add(a, b.drop_last());
    }
}

/// The sum does not depend on the direction.
pub proof fn lemma_total_reverse(s: Seq<u32>)
    ensures
        total(s.reverse()) == total(s),
    decreases s.len(),
{
    if s.len() > 0 {
        let head = seq![s.last()];
        assert(s.reverse() =~= head + s.drop_last().reverse());
        lemma_total_add(head, s.drop_last().reverse());
        lemma_total_reverse(s.drop_last());
        assert(head =~= Seq::<u32>::empty().push(s.last()));
        lemma_total_push(Seq::<u32>::empty(), s.last());
    } else {
        assert(s.reverse() =~= s);
    }
}

/// Every node of a walk is a node of the network.
pub proof fn lemma_walk_nodes(m: Seq<Seq<u32>>, p: Seq<int>, k: int)
    requires
        is_walk(m, p),
        0 <= k < p.len(),
    ensures
        0 <= p[k] < m.len(),
{
    if k > 0 {
        assert(hop(m, p, k - 1));
    }
}

/// A walk goes on by one hop.
pub proof fn lemma_walk_push(m: Seq<Seq<u32>>, p: Seq<int>, v: int)
    requires
        is_walk(m, p),
        linked(m, p.last(), v),
    ensures
        is_walk(m, p.push(v)),
        p.push(v)[0] == p[0],
        p.push(v).last() == v,
        walk_weight(m, p.push(v)) == walk_weight(m, p) + m[p.last()][v],
{
    let q = p.push(v);
    assert forall|k: int| 0 <= k < q.len() - 1 implies #[trigger] hop(m, q, k) by {
        if k < p.len() - 1 {
            assert(hop(m, p, k));
        }
    }
    assert(hop_weights(m, q) =~= hop_weights(m, p).push(m[p.last()][v]));
    lemma_total_push(hop_weights(m, p), m[p.last()][v]);
}

/// A walk of more than one node is a shorter walk and a last hop.
pub proof fn lemma_walk_drop_last(m: Seq<Seq<u32>>, q: Seq<int>)
    requires
        is_walk(m, q),
        q.len() >= 2,
    ensures
        is_walk(m, q.drop_last()),
        q.drop_last()[0] == q[0],
        q.drop_last().last() == q[q.len() - 2],
        linked(m, q[q.len() - 2], q.last()),
        walk_weight(m, q) == walk_weight(m, q.drop_last()) + m[q[q.len() - 2]][q.last()],
{
    let p = q.drop_last();
    assert(hop(m, q, q.len() - 2));
    assert forall|k: int| 0 <= k < p.len() - 1 implies #[trigger] hop(m, p, k) by {
        assert(hop(m, q, k));
    }
    assert(hop_weights(m, q).drop_last() =~= hop_weights(m, p));
}

/// A walk that weighs nothing has a single node.
pub proof fn lemma_weightless_walk(m: Seq<Seq<u32>>, p: Seq<int>)
    requires
        is_walk(m, p),
        walk_weight(m, p) == 0,
    ensures
        p.len() == 1,
{
    if p.len() >= 2 {
        lemma_walk_drop_last(m, p);
    }
}

/// In a symmetric network a walk can be walked backwards at the same weight.
pub proof fn lemma_walk_reverse(m: Seq<Seq<u32>>, p: Seq<int>)
    requires
        symmetric(m),
        is_walk(m, p),
    ensures
        is_walk(m, p.reverse()),
        p.reverse()[0] == p.last(),
        p.reverse().last() == p[0],
        walk_weight(m, p.reverse()) == walk_weight(m, p),
{
    let r = p.reverse();
    lemma_walk_nodes(m, p, p.len() - 1);
    assert forall|k: int| 0 <= k < r.len() - 1 implies #[trigger] hop(m, r, k) by {
        assert(hop(m, p, p.len() - 2 - k));
    }
    assert forall|k: int| 0 <= k < p.len() - 1 implies hop_weights(m, r)[k] == hop_weights(
        m,
        p,
    ).reverse()[k] by {
        assert(hop(m, p, p.len() - 2 - k));
    }
    assert(hop_weights(m, r) =~= hop_weights(m, p).reverse());
    lemma_total_reverse(hop_weights(m, p));
}

/// Where a walk leads from `s` to `t`, a shortest one does.
pub proof fn lemma_shortest_exists(m: Seq<Seq<u32>>, s: int, t: int, p: Seq<int>)
    requires
        walk_between(m, p, s, t),
    ensures
        exists|q: Seq<int>| is_shortest(m, q, s, t),
    decreases walk_weight(m, p),
{
    if !is_shortest(m, p, s, t) {
        let q = choose|q: Seq<int>| walk_between(m, q, s, t) && walk_weight(m, q) < walk_weight(m, p);
        lemma_shortest_exists(m, s, t, q);
    }
}

/// The distance to a node is at most the weight of any walk that leads there.
pub proof fn lemma_distance_at_most(m: Seq<Seq<u32>>, s: int, t: int, q: Seq<int>)
    requires
        walk_between(m, q, s, t),
    ensures
        distance(m, s, t) is Some,
        distance(m, s, t).unwrap() <= walk_weight(m, q),
{
    lemma_shortest_exists(m, s, t, q);
}

/// A shortest walk to a node that can be reached; it weighs the distance.
pub proof fn lemma_distance_walk(m: Seq<Seq<u32>>, s: int, t: int) -> (p: Seq<int>)
    requires
        distance(m, s, t) is Some,
    ensures
        is_shortest(m, p, s, t),
        walk_weight(m, p) == distance(m, s, t).unwrap(),
{
    let q = choose|q: Seq<int>| walk_between(m, q, s, t);
    lemma_shortest_exists(m, s, t, q);
    choose|p: Seq<int>| is_shortest(m, p, s, t)
}

/// The weight of any shortest walk is the distance.
pub proof fn lemma_distance_of_shortest(m: Seq<Seq<u32>>, s: int, t: int, p: Seq<int>)
    requires
        is_shortest(m, p, s, t),
    ensures
        distance(m, s, t) == Some(walk_weight(m, p)),
{
    let c = lemma_distance_walk(m, s, t);
    assert(walk_between(m, c, s, t));
}

/// A node is at distance nothing from itself.
pub proof fn lemma_distance_self(m: Seq<Seq<u32>>, s: int)
    requires
        0 <= s < m.len(),
    ensures
        distance(m, s, s) == Some(0nat),
        is_shortest(m, seq![s], s, s),
{
    let p = seq![s];
    assert(is_walk(m, p));
    assert(hop_weights(m, p) =~= Seq::<u32>::empty());
    assert(walk_weight(m, p) == 0);
    assert(is_shortest(m, p, s, s));
    lemma_distance_of_shortest(m, s, s, p);
}

/// The distance grows by at most a hop's weight along the hop.
pub proof fn lemma_distance_hop(m: Seq<Seq<u32>>, s: int, u: int, v: int)
    requires
        distance(m, s, u) is Some,
        linked(m, u, v),
    ensures
        distance(m, s, v) is Some,
        distance(m, s, v).unwrap() <= distance(m, s, u).unwrap() + m[u][v],
{
    let p = lemma_distance_walk(m, s, u);
    lemma_walk_push(m, p, v);
    lemma_distance_at_most(m, s, v, p.push(v));
}


/// The chosen shortest walk from `s` to `t`, where `t` can be reached.
pub open spec fn chosen(m: Seq<Seq<u32>>, s: int, t: int) -> Seq<int> {
    choose|p: Seq<int>| chosen_walk(m, p, s, t)
}

/// A walk that enters every node from its parent weighs the distance to its
/// last node.
pub proof fn lemma_chosen_weight(m: Seq<Seq<u32>>, p: Seq<int>, s: int, t: int)
    requires
        chosen_walk(m, p, s, t),
    ensures
        distance(m, s, t) == Some(walk_weight(m, p)),
    decreases p.len(),
{
    if p.len() == 1 {
        lemma_distance_self(m, s);
        assert(hop_weights(m, p) =~= Seq::<u32>::empty());
    } else {
        let q = p.drop_last();
        lemma_walk_drop_last(m, p);
        assert forall|k: int| 0 <= k < q.len() - 1 implies #[trigger] chosen_hop(m, s, q, k) by {
            assert(chosen_hop(m, s, p, k));
        }
        lemma_chosen_weight(m, q, s, q.last());
        assert(chosen_hop(m, s, p, p.len() - 2));
    }
}

/// The chosen walk is a shortest walk.
pub proof fn lemma_chosen_shortest(m: Seq<Seq<u32>>, p: Seq<int>, s: int, t: int)
    requires
        chosen_walk(m, p, s, t),
    ensures
        is_shortest(m, p, s, t),
{
    lemma_chosen_weight(m, p, s, t);
    assert forall|q: Seq<int>| #[trigger] walk_between(m, q, s, t) implies walk_weight(m, p)
        <= walk_weight(m, q) by {
        lemma_distance_at_most(m, s, t, q);
    }
}

/// A node has at most one parent.
pub proof fn lemma_parent_unique(m: Seq<Seq<u32>>, s: int, u: int, x: int, v: int)
    requires
        parent(m, s, u, v),
        parent(m, s, x, v),
    ensures
        u == x,
{
    assert(tight(m, s, u, v));
    assert(tight(m, s, x, v));
}

/// No hop into the source ends a shortest walk.
pub proof fn lemma_source_has_no_parent(m: Seq<Seq<u32>>, s: int, u: int)
    requires
        0 <= s < m.len(),
    ensures
        !tight(m, s, u, s),
{
    lemma_distance_self(m, s);
}

/// From `s` to `t` there is at most one chosen walk.
pub proof fn lemma_chosen_unique(m: Seq<Seq<u32>>, p: Seq<int>, q: Seq<int>, s: int, t: int)
    requires
        chosen_walk(m, p, s, t),
        chosen_walk(m, q, s, t),
    ensures
        p == q,
    decreases p.len(),
{
    if p.len() == 1 || q.len() == 1 {
        if p.len() >= 2 {
            assert(chosen_hop(m, s, p, p.len() - 2));
            lemma_source_has_no_parent(m, s, p[p.len() - 2]);
        }
        if q.len() >= 2 {
            assert(chosen_hop(m, s, q, q.len() - 2));
            lemma_source_has_no_parent(m, s, q[q.len() - 2]);
        }
        assert(p =~= q);
    } else {
        let p_front = p.drop_last();
        let q_front = q.drop_last();
        lemma_walk_drop_last(m, p);
        lemma_walk_drop_last(m, q);
        assert(chosen_hop(m, s, p, p.len() - 2));
        assert(chosen_hop(m, s, q, q.len() - 2));
        lemma_parent_unique(m, s, p[p.len() - 2], q[q.len() - 2], t);
        assert forall|k: int| 0 <= k < p_front.len() - 1 implies #[trigger] chosen_hop(m, s, p_front, k) by {
            assert(chosen_hop(m, s, p, k));
        }
        assert forall|k: int| 0 <= k < q_front.len() - 1 implies #[trigger] chosen_hop(m, s, q_front, k) by {
            assert(chosen_hop(m, s, q, k));
        }
        lemma_chosen_unique(m, p_front, q_front, s, p_front.last());
        assert(p =~= p_front.push(t));
        assert(q =~= q_front.push(t));
    }
}

/// A node other than the source that can be reached is entered by a hop
/// that ends a shortest walk.
pub proof fn lemma_tight_exists(m: Seq<Seq<u32>>, s: int, t: int) -> (x: int)
    requires
        distance(m, s, t) is Some,
        t != s,
    ensures
        tight(m, s, x, t),
{
    let q = lemma_distance_walk(m, s, t);
    lemma_walk_drop_last(m, q);
    let x = q[q.len() - 2];
    lemma_distance_at_most(m, s, x, q.drop_last());
    lemma_distance_hop(m, s, x, t);
    x
}

/// Of the nodes below `k` whose hop to `t` ends a shortest walk, the one
/// that ranks first.
proof fn lemma_first_tight(m: Seq<Seq<u32>>, s: int, t: int, k: int) -> (r: Option<int>)
    requires
        0 <= k <= m.len(),
    ensures
        match r {
            Some(u) => 0 <= u < k && tight(m, s, u, t) && forall|x: int|
                0 <= x < k && #[trigger] tight(m, s, x, t) ==> x == u || nearer(m, s, u, x),
            None => forall|x: int| 0 <= x < k ==> !#[trigger] tight(m, s, x, t),
        },
    decreases k,
{
    if k == 0 {
        None
    } else {
        let r = lemma_first_tight(m, s, t, k - 1);
        if tight(m, s, k - 1, t) {
            match r {
                None => Some(k - 1),
                Some(u) => {
                    if nearer(m, s, k - 1, u) {
                        assert forall|x: int| 0 <= x < k && #[trigger] tight(m, s, x, t) implies x
                            == k - 1 || nearer(m, s, k - 1, x) by {
                            if x != k - 1 && x != u {
                                assert(nearer(m, s, u, x));
                            }
                        }
                        Some(k - 1)
                    } else {
                        Some(u)
                    }
                },
            }
        } else {
            r
        }
    }
}

/// A node other than the source that can be reached has a parent.
pub proof fn lemma_parent_exists(m: Seq<Seq<u32>>, s: int, t: int) -> (u: int)
    requires
        distance(m, s, t) is Some,
        t != s,
    ensures
        parent(m, s, u, t),
{
    let x = lemma_tight_exists(m, s, t);
    let r = lemma_first_tight(m, s, t, m.len() as int);
    r.unwrap()
}

/// A chosen walk leads to every node that can be reached.
pub proof fn lemma_chosen_exists(m: Seq<Seq<u32>>, s: int, t: int) -> (p: Seq<int>)
    requires
        distance(m, s, t) is Some,
    ensures
        chosen_walk(m, p, s, t),
    decreases distance(m, s, t).unwrap(),
{
    if t == s {
        let q = lemma_distance_walk(m, s, t);
        seq![s]
    } else {
        let u = lemma_parent_exists(m, s, t);
        let front = lemma_chosen_exists(m, s, u);
        lemma_walk_push(m, front, t);
        let p = front.push(t);
        assert forall|k: int| 0 <= k < p.len() - 1 implies #[trigger] chosen_hop(m, s, p, k) by {
            if k < front.len() - 1 {
                assert(chosen_hop(m, s, front, k));
            }
        }
        p
    }
}

/// Where `t` can be reached from `s`, `chosen` is the chosen walk, and it is
/// a shortest one.
pub proof fn lemma_chosen(m: Seq<Seq<u32>>, s: int, t: int)
    requires
        reachable(m, s, t),
    ensures
        chosen_walk(m, chosen(m, s, t), s, t),
        is_shortest(m, chosen(m, s, t), s, t),
        distance(m, s, t) == Some(walk_weight(m, chosen(m, s, t))),
{
    let p = lemma_chosen_exists(m, s, t);
    lemma_chosen_shortest(m, chosen(m, s, t), s, t);
    lemma_chosen_weight(m, chosen(m, s, t), s, t);
}

/// In a symmetric network two nodes are as far from each other in one
/// direction as in the other.
pub proof fn lemma_distance_symmetric(m: Seq<Seq<u32>>, s: int, t: int)
    requires
        symmetric(m),
    ensures
        distance(m, s, t) == distance(m, t, s),
{
    if distance(m, s, t) is Some {
        let p = lemma_distance_walk(m, s, t);
        lemma_walk_reverse(m, p);
        lemma_distance_at_most(m, t, s, p.reverse());
    }
    if distance(m, t, s) is Some {
        let p = lemma_distance_walk(m, t, s);
        lemma_walk_reverse(m, p);
        lemma_distance_at_most(m, s, t, p.reverse());
    }
}

} // verus!
