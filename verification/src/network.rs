//! The network model: locations by name and index, the adjacency matrix of
//! the connections, and the check that every name referred to is known.

use vstd::prelude::*;
use crate::model::{Edge, Graph, Package, PlanError, Train};
use crate::paths::{symmetric, weights};
use crate::text::same_name;

verus! {

/// Connection `e` joins the locations of index `i` and `j`, in either
/// direction. A connection with an end that is no location joins nothing.
pub open spec fn joins(names: Seq<Seq<char>>, e: Edge, i: int, j: int) -> bool {
    let a = names.index_of_first(e.from@);
    let b = names.index_of_first(e.to@);
    (a == Some(i) && b == Some(j)) || (a == Some(j) && b == Some(i))
}

/// The weight of the last of `edges` that joins `i` and `j`; `0` where none
/// does.
pub open spec fn link_weight(names: Seq<Seq<char>>, edges: Seq<Edge>, i: int, j: int) -> u32
    decreases edges.len(),
{
    if edges.len() == 0 {
        0
    } else if joins(names, edges.last(), i, j) {
        edges.last().weight
    } else {
        link_weight(names, edges.drop_last(), i, j)
    }
}

/// The adjacency matrix of `edges` over the locations `names`.
pub open spec fn matrix_of(names: Seq<Seq<char>>, edges: Seq<Edge>) -> Seq<Seq<u32>> {
    Seq::new(names.len(), |i: int| Seq::new(names.len(), |j: int| link_weight(names, edges, i, j)))
}

/// The names that connections refer to: the two ends of each, in order.
pub open spec fn edge_names(edges: Seq<Edge>) -> Seq<&'static str> {
    Seq::new(
        2 * edges.len(),
        |i: int|
            if i % 2 == 0 {
                edges[i / 2].from
            } else {
                edges[i / 2].to
            },
    )
}

/// The names that vehicles refer to: where each one stands.
pub open spec fn train_names(trains: Seq<Train>) -> Seq<&'static str> {
    Seq::new(trains.len(), |i: int| trains[i].start)
}

/// The names that cargo items refer to: origin and destination of each, in
/// order.
pub open spec fn package_names(packages: Seq<Package>) -> Seq<&'static str> {
    Seq::new(
        2 * packages.len(),
        |i: int|
            if i % 2 == 0 {
                packages[i / 2].start
            } else {
                packages[i / 2].dest
            },
    )
}

/// The first of `refs` that names no location; `None` where all of them do.
pub open spec fn first_unknown(names: Seq<Seq<char>>, refs: Seq<&'static str>) -> Option<
    &'static str,
>
    decreases refs.len(),
{
    if refs.len() == 0 {
        None
    } else if !names.contains(refs[0]@) {
        Some(refs[0])
    } else {
        first_unknown(names, refs.drop_first())
    }
}

impl Graph {
    /// The names of the locations, in order.
    pub open spec fn names(&self) -> Seq<Seq<char>> {
        Seq::new(self.nodes@.len(), |i: int| self.nodes@[i].name@)
    }

    /// The index of the first location called `name`.
    pub open spec fn index(&self, name: Seq<char>) -> Option<int> {
        self.names().index_of_first(name)
    }

    /// The adjacency matrix of the network: for each pair of locations the
    /// weight of the last connection that joins them, `0` where none does.
    pub open spec fn adjacency(&self) -> Seq<Seq<u32>> {
        matrix_of(self.names(), self.edges@)
    }

    /// Every name that the network refers to, in the order in which they are
    /// checked: those of the connections, of the vehicles, of the cargo.
    pub open spec fn referred(&self) -> Seq<&'static str> {
        edge_names(self.edges@) + train_names(self.trains@) + package_names(self.packages@)
    }

    /// Both ends of every connection are locations of the network.
    pub open spec fn connections_sound(&self) -> bool {
        first_unknown(self.names(), edge_names(self.edges@)) is None
    }

    /// Every name that the network refers to is a location of it.
    pub open spec fn well_formed(&self) -> bool {
        first_unknown(self.names(), self.referred()) is None
    }
}

/// In a well-formed network the connections are sound.
pub proof fn lemma_well_formed_connections(graph: Graph)
    requires
        graph.well_formed(),
    ensures
        graph.connections_sound(),
{
    let names = graph.names();
    lemma_first_unknown_add(
        names,
        edge_names(graph.edges@) + train_names(graph.trains@),
        package_names(graph.packages@),
    );
    lemma_first_unknown_add(names, edge_names(graph.edges@), train_names(graph.trains@));
}

/// The index of the first occurrence is what `index_of_first` gives.
pub proof fn lemma_index_found(names: Seq<Seq<char>>, name: Seq<char>, i: int)
    requires
        0 <= i < names.len(),
        names[i] == name,
        forall|j: int| 0 <= j < i ==> names[j] != name,
    ensures
        names.index_of_first(name) == Some(i),
{
    names.index_of_first_ensures(name);
    assert(names.contains(name));
    let found = names.index_of_first(name).unwrap();
    if found < i {
        assert(names[found] != name);
    }
    if i < found {
        assert(names[i] != name);
    }
}

/// A name that occurs nowhere has no index.
pub proof fn lemma_index_absent(names: Seq<Seq<char>>, name: Seq<char>)
    requires
        forall|j: int| 0 <= j < names.len() ==> names[j] != name,
    ensures
        names.index_of_first(name) is None,
{
    names.index_of_first_ensures(name);
}

/// An index that `index_of_first` gives is the first occurrence.
pub proof fn lemma_index_first(names: Seq<Seq<char>>, name: Seq<char>)
    ensures
        match names.index_of_first(name) {
            Some(i) => 0 <= i < names.len() && names[i] == name && names.contains(name),
            None => !names.contains(name),
        },
{
    names.index_of_first_ensures(name);
}

/// Where the first `k` of `refs` are known and the next one is not, it is
/// the first unknown.
pub proof fn lemma_first_unknown_at(names: Seq<Seq<char>>, refs: Seq<&'static str>, k: int)
    requires
        0 <= k < refs.len(),
        forall|i: int| 0 <= i < k ==> names.contains(#[trigger] refs[i]@),
        !names.contains(refs[k]@),
    ensures
        first_unknown(names, refs) == Some(refs[k]),
    decreases k,
{
    if k > 0 {
        assert(names.contains(refs[0]@));
        let rest = refs.drop_first();
        assert forall|i: int| 0 <= i < k - 1 implies names.contains(#[trigger] rest[i]@) by {
            assert(names.contains(refs[i + 1]@));
        }
        lemma_first_unknown_at(names, rest, k - 1);
    }
}

/// None is unknown exactly where all are known.
pub proof fn lemma_all_known(names: Seq<Seq<char>>, refs: Seq<&'static str>)
    ensures
        first_unknown(names, refs) is None <==> forall|i: int|
            0 <= i < refs.len() ==> names.contains(#[trigger] refs[i]@),
    decreases refs.len(),
{
    if refs.len() > 0 {
        let rest = refs.drop_first();
        lemma_all_known(names, rest);
        if names.contains(refs[0]@) {
            if first_unknown(names, rest) is None {
                assert forall|i: int| 0 <= i < refs.len() implies names.contains(
                    #[trigger] refs[i]@,
                ) by {
                    if i > 0 {
                        assert(names.contains(rest[i - 1]@));
                    }
                }
            } else {
                let i = choose|i: int| 0 <= i < rest.len() && !names.contains(#[trigger] rest[i]@);
                assert(!names.contains(refs[i + 1]@));
            }
        }
    }
}

/// The first unknown of two lists in a row is that of the first list, or
/// else that of the second.
pub proof fn lemma_first_unknown_add(
    names: Seq<Seq<char>>,
    a: Seq<&'static str>,
    b: Seq<&'static str>,
)
    ensures
        first_unknown(names, a + b) == match first_unknown(names, a) {
            Some(name) => Some(name),
            None => first_unknown(names, b),
        },
    decreases a.len(),
{
    if a.len() == 0 {
        assert(a + b =~= b);
    } else {
        assert((a + b).drop_first() =~= a.drop_first() + b);
        lemma_first_unknown_add(names, a.drop_first(), b);
    }
}

/// The adjacency matrix weighs every connection the same in both
/// directions.
pub proof fn lemma_link_weight_symmetric(
    names: Seq<Seq<char>>,
    edges: Seq<Edge>,
    i: int,
    j: int,
)
    ensures
        link_weight(names, edges, i, j) == link_weight(names, edges, j, i),
    decreases edges.len(),
{
    if edges.len() > 0 {
        lemma_link_weight_symmetric(names, edges.drop_last(), i, j);
    }
}

/// The adjacency matrix is symmetric.
pub proof fn lemma_matrix_symmetric(names: Seq<Seq<char>>, edges: Seq<Edge>)
    ensures
        symmetric(matrix_of(names, edges)),
{
    let m = matrix_of(names, edges);
    assert forall|i: int, j: int| 0 <= i < m.len() && 0 <= j < m.len() implies #[trigger] m[i][j]
        == m[j][i] by {
        lemma_link_weight_symmetric(names, edges, i, j);
    }
}

/// Writes one weight into a matrix.
fn set_weight(adj: &mut Vec<Vec<u32>>, i: usize, j: usize, w: u32)
    requires
        i < old(adj)@.len(),
        j < old(adj)@[i as int]@.len(),
    ensures
        final(adj)@.len() == old(adj)@.len(),
        final(adj)@[i as int]@ == old(adj)@[i as int]@.update(j as int, w),
        forall|k: int| 0 <= k < old(adj)@.len() && k != i ==> final(adj)@[k] == old(adj)@[k],
{
    adj[i][j] = w;
}

impl Graph {
    /// The names of the locations, in order.
    pub fn get_names(&self) -> (names: Vec<&'static str>)
        ensures
            names@.len() == self.nodes@.len(),
            forall|i: int| 0 <= i < names@.len() ==> names@[i] == self.nodes@[i].name,
    {
        let n = self.nodes.len();
        let mut names: Vec<&'static str> = Vec::new();
        let mut i: usize = 0;
        while i < n
            invariant
                i <= n,
                n == self.nodes@.len(),
                names@.len() == i,
                forall|k: int| 0 <= k < i ==> names@[k] == self.nodes@[k].name,
            decreases n - i,
        {
            names.push(self.nodes[i].name);
            i += 1;
        }
        names
    }

    /// The index of the first location called `name`; `None` where there is
    /// none.
    pub fn position(&self, name: &str) -> (found: Option<usize>)
        ensures
            match found {
                Some(i) => self.index(name@) == Some(i as int),
                None => self.index(name@) is None,
            },
    {
        let n = self.nodes.len();
        let mut i: usize = 0;
        while i < n
            invariant
                i <= n,
                n == self.nodes@.len(),
                forall|j: int| 0 <= j < i ==> self.names()[j] != name@,
            decreases n - i,
        {
            if same_name(self.nodes[i].name, name) {
                proof {
                    lemma_index_found(self.names(), name@, i as int);
                }
                return Some(i);
            }
            i += 1;
        }
        proof {
            lemma_index_absent(self.names(), name@);
        }
        None
    }

    /// The index of the first location called `name`; fails with
    /// `UnknownLocation` where there is none.
    pub fn resolve_index(&self, name: &'static str) -> (found: Result<usize, PlanError>)
        ensures
            match found {
                Ok(i) => self.index(name@) == Some(i as int),
                Err(e) => self.index(name@) is None && e == (PlanError::UnknownLocation { name }),
            },
    {
        match self.position(name) {
            Some(i) => Ok(i),
            None => Err(PlanError::UnknownLocation { name }),
        }
    }

    /// The first of `refs` that names no location of the network.
    pub fn first_unknown_of(&self, refs: &Vec<&'static str>) -> (unknown: Option<&'static str>)
        ensures
            unknown == first_unknown(self.names(), refs@),
    {
        let n = refs.len();
        let mut i: usize = 0;
        while i < n
            invariant
                i <= n,
                n == refs@.len(),
                forall|k: int| 0 <= k < i ==> self.names().contains(#[trigger] refs@[k]@),
            decreases n - i,
        {
            let name = refs[i];
            proof {
                lemma_index_first(self.names(), name@);
            }
            if self.position(name).is_none() {
                proof {
                    lemma_first_unknown_at(self.names(), refs@, i as int);
                }
                return Some(name);
            }
            i += 1;
        }
        proof {
            lemma_all_known(self.names(), refs@);
        }
        None
    }

    /// The names that the connections refer to.
    pub fn edge_ends(&self) -> (refs: Vec<&'static str>)
        ensures
            refs@ == edge_names(self.edges@),
    {
        let n = self.edges.len();
        let mut refs: Vec<&'static str> = Vec::new();
        let mut i: usize = 0;
        while i < n
            invariant
                i <= n,
                n == self.edges@.len(),
                refs@ == edge_names(self.edges@.take(i as int)),
            decreases n - i,
        {
            refs.push(self.edges[i].from);
            refs.push(self.edges[i].to);
            i += 1;
            assert(refs@ =~= edge_names(self.edges@.take(i as int)));
        }
        assert(self.edges@.take(n as int) =~= self.edges@);
        refs
    }

    /// Every name that the network refers to.
    pub fn referred_names(&self) -> (refs: Vec<&'static str>)
        ensures
            refs@ == self.referred(),
    {
        let mut refs = self.edge_ends();
        let n = self.trains.len();
        let mut i: usize = 0;
        while i < n
            invariant
                i <= n,
                n == self.trains@.len(),
                refs@ == edge_names(self.edges@) + train_names(self.trains@.take(i as int)),
            decreases n - i,
        {
            refs.push(self.trains[i].start);
            i += 1;
            assert(refs@ =~= edge_names(self.edges@) + train_names(self.trains@.take(i as int)));
        }
        assert(self.trains@.take(n as int) =~= self.trains@);
        let n = self.packages.len();
        let mut i: usize = 0;
        while i < n
            invariant
                i <= n,
                n == self.packages@.len(),
                refs@ == edge_names(self.edges@) + train_names(self.trains@) + package_names(
                    self.packages@.take(i as int),
                ),
            decreases n - i,
        {
            refs.push(self.packages[i].start);
            refs.push(self.packages[i].dest);
            i += 1;
            assert(refs@ =~= edge_names(self.edges@) + train_names(self.trains@) + package_names(
                self.packages@.take(i as int),
            ));
        }
        assert(self.packages@.take(n as int) =~= self.packages@);
        refs
    }

    /// Checks that every name that the network refers to is a location of
    /// it, and reports the first that is not.
    pub fn validate(&self) -> (checked: Result<(), PlanError>)
        ensures
            checked is Ok <==> self.well_formed(),
            checked == match first_unknown(self.names(), self.referred()) {
                Some(name) => Err::<(), PlanError>(PlanError::UnknownLocation { name }),
                None => Ok(()),
            },
    {
        let refs = self.referred_names();
        match self.first_unknown_of(&refs) {
            Some(name) => Err(PlanError::UnknownLocation { name }),
            None => Ok(()),
        }
    }

    /// The adjacency matrix of the network: all zero, then for each
    /// connection in order its weight in both directions, a later connection
    /// between the same two locations replacing an earlier one.
    pub fn create_adj_matrix(&self) -> (adj: Vec<Vec<u32>>)
        requires
            self.connections_sound(),
        ensures
            weights(&adj) == self.adjacency(),
    {
        let n = self.nodes.len();
        let mut adj: Vec<Vec<u32>> = vec![vec![0u32; n]; n];
        let ghost names = self.names();
        assert(weights(&adj) =~~= matrix_of(names, self.edges@.take(0)));
        let count = self.edges.len();
        let mut k: usize = 0;
        while k < count
            invariant
                k <= count,
                count == self.edges@.len(),
                n == self.nodes@.len(),
                names == self.names(),
                first_unknown(names, edge_names(self.edges@)) is None,
                adj@.len() == n,
                forall|i: int| 0 <= i < n ==> (#[trigger] adj@[i])@.len() == n,
                weights(&adj) == matrix_of(names, self.edges@.take(k as int)),
            decreases count - k,
        {
            let edge = self.edges[k];
            proof {
                lemma_all_known(names, edge_names(self.edges@));
                assert(edge_names(self.edges@)[2 * k] == edge.from);
                assert(edge_names(self.edges@)[2 * k + 1] == edge.to);
                lemma_index_first(names, edge.from@);
                lemma_index_first(names, edge.to@);
            }
            let row = self.position(edge.from).unwrap();
            let col = self.position(edge.to).unwrap();
            let ghost before = weights(&adj);
            set_weight(&mut adj, row, col, edge.weight);
            set_weight(&mut adj, col, row, edge.weight);
            k += 1;
            proof {
                let edges = self.edges@.take(k as int);
                assert(edges.drop_last() =~= self.edges@.take(k - 1));
                assert(edges.last() == edge);
                let after = weights(&adj);
                let goal = matrix_of(names, edges);
                assert forall|i: int, j: int| 0 <= i < n && 0 <= j < n implies after[i][j]
                    == goal[i][j] by {
                    assert(before[i][j] == link_weight(names, edges.drop_last(), i, j));
                    assert(joins(names, edge, i, j) <==> (i == row && j == col) || (i == col && j
                        == row));
                }
                assert(after =~~= goal);
            }
        }
        assert(self.edges@.take(count as int) =~= self.edges@);
        adj
    }
}

} // verus!
