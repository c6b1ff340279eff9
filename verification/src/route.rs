//! The route resolver: from two location names to the locations along the
//! chosen shortest walk between them and the weight of each hop.

use vstd::prelude::*;
use crate::model::{Graph, Node, PlanError};
use crate::network::{edge_names, first_unknown, lemma_index_first};
use crate::paths::{
    chosen, chosen_walk, hop, hop_weights, lemma_chosen_unique, lemma_walk_nodes, reachable,
    square, total, walk_between, weights,
};
use crate::search::ids;

verus! {

/// The locations along a walk, without the one it starts at.
pub open spec fn stops(nodes: Seq<Node>, p: Seq<int>) -> Seq<Node> {
    Seq::new(
        if p.len() == 0 {
            0nat
        } else {
            (p.len() - 1) as nat
        },
        |k: int| nodes[p[k + 1]],
    )
}

/// What a route query returned, as sequences.
pub open spec fn route_view(found: Result<(Vec<Node>, Vec<u32>), PlanError>) -> Result<
    (Seq<Node>, Seq<u32>),
    PlanError,
> {
    match found {
        Ok((nodes, hops)) => Ok((nodes@, hops@)),
        Err(e) => Err(e),
    }
}

/// What a route costs: the sum of its hop weights.
pub open spec fn route_cost(route: Result<(Seq<Node>, Seq<u32>), PlanError>) -> nat {
    match route {
        Ok((_, hops)) => total(hops),
        Err(_) => 0,
    }
}

impl Graph {
    /// The route from the location called `src` to the one called `dest`:
    /// the locations along the chosen shortest walk after the first, and the
    /// weight of each of its hops.
    ///
    /// It fails with `UnknownLocation` where a connection, `src` or `dest`
    /// names no location (the first such name, in that order), and with
    /// `NoPath` where no walk leads from `src` to `dest`.
    pub open spec fn route(&self, src: &'static str, dest: &'static str) -> Result<
        (Seq<Node>, Seq<u32>),
        PlanError,
    > {
        let m = self.adjacency();
        match first_unknown(self.names(), edge_names(self.edges@)) {
            Some(name) => Err(PlanError::UnknownLocation { name }),
            None => match self.index(src@) {
                None => Err(PlanError::UnknownLocation { name: src }),
                Some(s) => match self.index(dest@) {
                    None => Err(PlanError::UnknownLocation { name: dest }),
                    Some(t) => if reachable(m, s, t) {
                        Ok((stops(self.nodes@, chosen(m, s, t)), hop_weights(m, chosen(m, s, t))))
                    } else {
                        Err(PlanError::NoPath { from: src, to: dest })
                    },
                },
            },
        }
    }

    /// Resolves the route from `src` to `dest`: the locations after `src`
    /// along the chosen shortest walk, and the weight of each hop.
    pub fn shortest_path(&self, src: &'static str, dest: &'static str) -> (found: Result<
        (Vec<Node>, Vec<u32>),
        PlanError,
    >)
        ensures
            route_view(found) == self.route(src, dest),
    {
        let ends = self.edge_ends();
        match self.first_unknown_of(&ends) {
            Some(name) => {
                return Err(PlanError::UnknownLocation { name });
            },
            None => {},
        }
        let source = match self.resolve_index(src) {
            Ok(i) => i,
            Err(e) => {
                return Err(e);
            },
        };
        let destination = match self.resolve_index(dest) {
            Ok(i) => i,
            Err(e) => {
                return Err(e);
            },
        };
        let graph = self.create_adj_matrix();
        let ghost m = self.adjacency();
        proof {
            lemma_index_first(self.names(), src@);
            lemma_index_first(self.names(), dest@);
            assert(square(m));
        }
        match Graph::dijkstra(&graph, source, destination) {
            None => Err(PlanError::NoPath { from: src, to: dest }),
            Some(p) => {
                let ghost walk = ids(p@);
                proof {
                    assert(walk_between(m, walk, source as int, destination as int));
                    lemma_chosen_unique(
                        m,
                        walk,
                        chosen(m, source as int, destination as int),
                        source as int,
                        destination as int,
                    );
                }
                let mut nodes: Vec<Node> = Vec::new();
                let mut hops: Vec<u32> = Vec::new();
                let n = p.len();
                let mut k: usize = 1;
                while k < n
                    invariant
                        1 <= k <= n,
                        n == p@.len(),
                        walk == ids(p@),
                        chosen_walk(m, walk, source as int, destination as int),
                        m == weights(&graph),
                        m.len() == self.nodes@.len(),
                        square(m),
                        nodes@.len() == k - 1,
                        hops@.len() == k - 1,
                        forall|i: int| 0 <= i < k - 1 ==> #[trigger] nodes@[i] == self.nodes@[walk[i + 1]],
                        forall|i: int| 0 <= i < k - 1 ==> #[trigger] hops@[i] == m[walk[i]][walk[i + 1]],
                    decreases n - k,
                {
                    proof {
                        lemma_walk_nodes(m, walk, k as int);
                        lemma_walk_nodes(m, walk, k - 1);
                        assert(hop(m, walk, k - 1));
                        assert(m[walk[k - 1]] == graph@[walk[k - 1]]@);
                    }
                    nodes.push(self.nodes[p[k]]);
                    hops.push(graph[p[k - 1]][p[k]]);
                    k += 1;
                }
                proof {
                    assert(nodes@ =~= stops(self.nodes@, walk));
                    assert(hops@ =~= hop_weights(m, walk));
                }
                Ok((nodes, hops))
            },
        }
    }
}

} // verus!
