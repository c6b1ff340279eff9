//! The assignment planner: for each cargo item the vehicle that reaches its
//! origin at the least cost, and the timeline of the delivery.

use vstd::prelude::*;
use crate::model::{Graph, Move, Node, Package, PlanError, Train};
use crate::network::first_unknown;
use crate::paths::total;
use crate::route::route_cost;
use crate::timeline::timeline;

verus! {

/// The vehicle can carry the cargo item.
pub open spec fn can_carry(train: Train, package: Package) -> bool {
    train.capacity >= package.weight
}

/// The timelines of a list of plans.
pub open spec fn rows(plans: Seq<Vec<Move>>) -> Seq<Seq<Move>> {
    Seq::new(plans.len(), |i: int| plans[i]@)
}

/// What planning one delivery returned, as a sequence.
pub open spec fn plan_view(planned: Result<Vec<Move>, PlanError>) -> Result<Seq<Move>, PlanError> {
    match planned {
        Ok(moves) => Ok(moves@),
        Err(e) => Err(e),
    }
}

/// What planning all deliveries returned, as sequences.
pub open spec fn plans_view(planned: Result<Vec<Vec<Move>>, PlanError>) -> Result<
    Seq<Seq<Move>>,
    PlanError,
> {
    match planned {
        Ok(plans) => Ok(rows(plans@)),
        Err(e) => Err(e),
    }
}

impl Graph {
    /// Vehicle `i` exists and can carry the cargo item.
    pub open spec fn able(&self, package: Package, i: int) -> bool {
        0 <= i < self.trains@.len() && can_carry(self.trains@[i], package)
    }

    /// The route of vehicle `i` from where it stands to the origin of the
    /// cargo item.
    pub open spec fn approach(&self, package: Package, i: int) -> Result<
        (Seq<Node>, Seq<u32>),
        PlanError,
    > {
        self.route(self.trains@[i].start, package.start)
    }

    /// What it costs vehicle `i` to reach the origin of the cargo item: the
    /// sum of the hop weights of its route there.
    pub open spec fn approach_cost(&self, package: Package, i: int) -> nat {
        route_cost(self.approach(package, i))
    }

    /// Vehicle `i` can carry the cargo item but has no route to its origin.
    pub open spec fn blocked(&self, package: Package, i: int) -> bool {
        self.able(package, i) && self.approach(package, i) is Err
    }

    /// Vehicle `i` is the first in the list that is blocked.
    pub open spec fn first_blocked(&self, package: Package, i: int) -> bool {
        self.blocked(package, i) && forall|k: int| 0 <= k < i ==> !#[trigger] self.blocked(package, k)
    }

    /// Vehicle `i` is the one that carries the cargo item: of the vehicles
    /// that can carry it, none reaches its origin at less cost, and none
    /// listed before `i` at the same cost.
    pub open spec fn assigned(&self, package: Package, i: int) -> bool {
        &&& self.able(package, i)
        &&& self.approach(package, i) is Ok
        &&& forall|j: int| #[trigger]
            self.able(package, j) && self.approach(package, j) is Ok ==> self.approach_cost(
                package,
                i,
            ) <= self.approach_cost(package, j) && (self.approach_cost(package, j)
                == self.approach_cost(package, i) ==> i <= j)
    }

    /// The vehicle that carries the cargo item.
    pub open spec fn carrier(&self, package: Package) -> int {
        choose|i: int| self.assigned(package, i)
    }

    /// The plan for one cargo item: the timeline of the assigned vehicle
    /// along its route to the origin followed by the route from there to
    /// the destination.
    ///
    /// It fails with `NoCapableVehicle` where no vehicle can carry the item,
    /// with the failure of the first blocked vehicle where one is blocked,
    /// and else with the failure of the route from origin to destination.
    ///
    /// A cargo item whose origin is its destination adds no hop of its own:
    /// the timeline ends where the vehicle reaches the origin, and is empty
    /// where the vehicle stands there already.
    pub open spec fn plan(&self, package: Package) -> Result<Seq<Move>, PlanError> {
        if forall|i: int| !#[trigger] self.able(package, i) {
            Err(PlanError::NoCapableVehicle { cargo: package.name })
        } else if exists|j: int| self.first_blocked(package, j) {
            Err(self.approach(package, choose|j: int| self.first_blocked(package, j))->Err_0)
        } else {
            let i = self.carrier(package);
            let (path, hops) = self.approach(package, i)->Ok_0;
            match self.route(package.start, package.dest) {
                Ok((more_path, more_hops)) => Ok(
                    timeline(self.trains@[i], path + more_path, package, hops + more_hops),
                ),
                Err(e) => Err(e),
            }
        }
    }

    /// The plans for the first cargo items of a list, in order; the first
    /// failure ends the planning.
    pub open spec fn plans_of(&self, packages: Seq<Package>) -> Result<Seq<Seq<Move>>, PlanError>
        decreases packages.len(),
    {
        if packages.len() == 0 {
            Ok(Seq::empty())
        } else {
            match self.plans_of(packages.drop_last()) {
                Err(e) => Err(e),
                Ok(done) => match self.plan(packages.last()) {
                    Err(e) => Err(e),
                    Ok(moves) => Ok(done.push(moves)),
                },
            }
        }
    }

    /// The plans for all cargo items, in their order. Planning does not
    /// start where the network refers to a name that is no location.
    pub open spec fn plans(&self) -> Result<Seq<Seq<Move>>, PlanError> {
        match first_unknown(self.names(), self.referred()) {
            Some(name) => Err(PlanError::UnknownLocation { name }),
            None => self.plans_of(self.packages@),
        }
    }
}

/// At most one vehicle is assigned to a cargo item.
pub proof fn lemma_assigned_unique(graph: Graph, package: Package, i: int, j: int)
    requires
        graph.assigned(package, i),
        graph.assigned(package, j),
    ensures
        i == j,
{
    assert(graph.able(package, i));
    assert(graph.able(package, j));
}

/// At most one vehicle is the first blocked one.
pub proof fn lemma_first_blocked_unique(graph: Graph, package: Package, i: int, j: int)
    requires
        graph.first_blocked(package, i),
        graph.first_blocked(package, j),
    ensures
        i == j,
{
    assert(graph.blocked(package, i));
    assert(graph.blocked(package, j));
}

/// Once planning has failed, it has failed for every longer list.
pub proof fn lemma_plans_abort(graph: Graph, packages: Seq<Package>, k: int, e: PlanError)
    requires
        0 <= k <= packages.len(),
        graph.plans_of(packages.take(k)) == Err::<Seq<Seq<Move>>, PlanError>(e),
    ensures
        graph.plans_of(packages) == Err::<Seq<Seq<Move>>, PlanError>(e),
    decreases packages.len() - k,
{
    if k == packages.len() {
        assert(packages.take(k) =~= packages);
    } else {
        assert(packages.take(k + 1).drop_last() =~= packages.take(k));
        lemma_plans_abort(graph, packages, k + 1, e);
    }
}

/// The sum of a list of hop weights.
pub fn total_weight(hops: &Vec<u32>) -> (sum: u128)
    ensures
        sum == total(hops@),
{
    let n = hops.len();
    let mut sum: u128 = 0;
    let mut i: usize = 0;
    assert(hops@.take(0) =~= Seq::<u32>::empty());
    while i < n
        invariant
            i <= n,
            n == hops@.len(),
            sum == total(hops@.take(i as int)),
            sum <= i * 0xFFFF_FFFF,
        decreases n - i,
    {
        proof {
            assert(hops@.take(i + 1).drop_last() =~= hops@.take(i as int));
        }
        sum = sum + hops[i] as u128;
        i += 1;
    }
    assert(hops@.take(n as int) =~= hops@);
    sum
}

impl Graph {
    /// Plans the delivery of one cargo item: assigns the vehicle and builds
    /// its timeline.
    pub fn plan_delivery(&self, package: Package) -> (planned: Result<Vec<Move>, PlanError>)
        ensures
            plan_view(planned) == self.plan(package),
    {
        let count = self.trains.len();
        let mut choice: Option<usize> = None;
        let mut best_path: Vec<Node> = Vec::new();
        let mut best_hops: Vec<u32> = Vec::new();
        let mut best_total: u128 = 0;
        let mut k: usize = 0;
        while k < count
            invariant
                k <= count,
                count == self.trains@.len(),
                forall|j: int| 0 <= j < k ==> !#[trigger] self.blocked(package, j),
                choice is None ==> forall|j: int| 0 <= j < k ==> !#[trigger] self.able(package, j),
                choice matches Some(i) ==> {
                    &&& i < k
                    &&& self.able(package, i as int)
                    &&& self.approach(package, i as int) == Ok::<(Seq<Node>, Seq<u32>), PlanError>(
                        (best_path@, best_hops@),
                    )
                    &&& best_total == total(best_hops@)
                    &&& forall|j: int|
                        0 <= j < k && #[trigger] self.able(package, j) ==> best_total
                            <= self.approach_cost(package, j) && (self.approach_cost(package, j)
                            == best_total ==> i <= j)
                },
            decreases count - k,
        {
            let train = self.trains[k];
            if train.capacity >= package.weight {
                match self.shortest_path(train.start, package.start) {
                    Err(e) => {
                        proof {
                            assert(self.able(package, k as int));
                            assert(self.first_blocked(package, k as int));
                            let j = choose|j: int| self.first_blocked(package, j);
                            lemma_first_blocked_unique(*self, package, j, k as int);
                        }
                        return Err(e);
                    },
                    Ok((path, hops)) => {
                        let cost = total_weight(&hops);
                        let better = match choice {
                            None => true,
                            Some(_) => cost < best_total,
                        };
                        if better {
                            choice = Some(k);
                            best_path = path;
                            best_hops = hops;
                            best_total = cost;
                        }
                    },
                }
            }
            k += 1;
        }
        match choice {
            None => Err(PlanError::NoCapableVehicle { cargo: package.name }),
            Some(i) => {
                proof {
                    assert(self.able(package, i as int));
                    assert(self.assigned(package, i as int));
                    lemma_assigned_unique(*self, package, self.carrier(package), i as int);
                    assert forall|j: int| !self.first_blocked(package, j) by {
                        if self.first_blocked(package, j) {
                            assert(self.blocked(package, j));
                        }
                    }
                }
                match self.shortest_path(package.start, package.dest) {
                    Err(e) => Err(e),
                    Ok((mut path, mut hops)) => {
                        best_path.append(&mut path);
                        best_hops.append(&mut hops);
                        let moves = self.get_moves(self.trains[i], best_path, package, best_hops);
                        Ok(moves)
                    },
                }
            },
        }
    }

    /// Plans every delivery, in the order of the cargo items: one timeline
    /// for each. Nothing is planned where the network refers to an unknown
    /// location, and the first delivery that cannot be planned ends the run
    /// with its failure. A caller that would rather pass over such a
    /// delivery plans them one by one, with `plan_delivery`.
    pub fn start(&self) -> (planned: Result<Vec<Vec<Move>>, PlanError>)
        ensures
            plans_view(planned) == self.plans(),
    {
        match self.validate() {
            Err(e) => {
                return Err(e);
            },
            Ok(_) => {},
        }
        let mut result: Vec<Vec<Move>> = Vec::new();
        let count = self.packages.len();
        let mut k: usize = 0;
        assert(rows(result@) =~= Seq::<Seq<Move>>::empty());
        while k < count
            invariant
                k <= count,
                count == self.packages@.len(),
                first_unknown(self.names(), self.referred()) is None,
                self.plans_of(self.packages@.take(k as int)) == Ok::<Seq<Seq<Move>>, PlanError>(
                    rows(result@),
                ),
            decreases count - k,
        {
            proof {
                assert(self.packages@.take(k + 1).drop_last() =~= self.packages@.take(k as int));
            }
            let ghost before = rows(result@);
            match self.plan_delivery(self.packages[k]) {
                Err(e) => {
                    proof {
                        lemma_plans_abort(*self, self.packages@, k + 1, e);
                    }
                    return Err(e);
                },
                Ok(moves) => {
                    result.push(moves);
                    assert(rows(result@) =~= before.push(moves@));
                },
            }
            k += 1;
        }
        assert(self.packages@.take(count as int) =~= self.packages@);
        Ok(result)
    }
}

} // verus!
