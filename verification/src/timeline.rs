//! The timeline builder: from a vehicle, the locations it passes and the
//! weight of each hop to the movements in the order in which they happen.

use vstd::prelude::*;
use crate::model::{Graph, Move, Node, Package, Train};
use crate::paths::total;
use crate::text::same_name;

verus! {

/// The cargo's name where the location `here` is the one called `at`, and
/// the empty name elsewhere.
pub open spec fn mark(here: &'static str, at: &'static str, cargo: &'static str) -> &'static str {
    if here@ == at@ {
        cargo
    } else {
        ""
    }
}

/// The `k`-th movement of a timeline. The first takes the vehicle from where
/// it stands to the first location of `path`, at elapsed weight nothing and
/// with no cargo shown at its end. Every other one leads from one location
/// of `path` to the next, once all hops before it have elapsed.
pub open spec fn movement(
    train: Train,
    path: Seq<Node>,
    package: Package,
    duration: Seq<u32>,
    k: int,
) -> Move {
    if k == 0 {
        Move {
            w: 0,
            t: train.name,
            n1: train.start,
            p1: mark(train.start, package.start, package.name),
            n2: path[0].name,
            p2: "",
        }
    } else {
        Move {
            w: total(duration.take(k)) as u128,
            t: train.name,
            n1: path[k - 1].name,
            p1: mark(path[k - 1].name, package.start, package.name),
            n2: path[k].name,
            p2: mark(path[k].name, package.dest, package.name),
        }
    }
}

/// The movements of `train` along `path`: as many as `path` has locations.
/// A vehicle with nowhere to go makes none.
pub open spec fn timeline(train: Train, path: Seq<Node>, package: Package, duration: Seq<u32>) -> Seq<
    Move,
> {
    Seq::new(path.len(), |k: int| movement(train, path, package, duration, k))
}

/// A sum of weights is less than 2^32 times their number.
pub proof fn lemma_total_bound(s: Seq<u32>)
    ensures
        total(s) <= s.len() * 0xFFFF_FFFF,
    decreases s.len(),
{
    if s.len() > 0 {
        lemma_total_bound(s.drop_last());
    }
}

/// The cargo's name where `here` and `at` are the same location.
fn marker(here: &'static str, at: &'static str, cargo: &'static str) -> (shown: &'static str)
    ensures
        shown == mark(here, at, cargo),
{
    if same_name(here, at) {
        cargo
    } else {
        ""
    }
}

impl Graph {
    /// The timeline of `train` along `path`, where `duration` holds the
    /// weight of the hop into each location of `path`.
    pub fn get_moves(
        &self,
        train: Train,
        path: Vec<Node>,
        package: Package,
        duration: Vec<u32>,
    ) -> (moves: Vec<Move>)
        requires
            path@.len() <= duration@.len() + 1,
        ensures
            moves@ == timeline(train, path@, package, duration@),
            moves@.len() == path@.len(),
            forall|k: int| 0 < k < moves@.len() ==> (#[trigger] moves@[k]).w == total(duration@.take(k)),
    {
        let mut moves: Vec<Move> = Vec::new();
        let n = path.len();
        if n == 0 {
            assert(moves@ =~= timeline(train, path@, package, duration@));
            return moves;
        }
        moves.push(
            Move {
                w: 0,
                t: train.name,
                n1: train.start,
                p1: marker(train.start, package.start, package.name),
                n2: path[0].name,
                p2: "",
            },
        );
        let mut w: u128 = 0;
        let mut i: usize = 0;
        assert(duration@.take(0) =~= Seq::<u32>::empty());
        while i < n - 1
            invariant
                i <= n - 1,
                n == path@.len(),
                n <= duration@.len() + 1,
                moves@.len() == i + 1,
                forall|k: int|
                    0 <= k <= i ==> #[trigger] moves@[k] == movement(
                        train,
                        path@,
                        package,
                        duration@,
                        k,
                    ),
                w == total(duration@.take(i as int)),
                w <= i * 0xFFFF_FFFF,
            decreases n - i,
        {
            proof {
                assert(duration@.take(i + 1).drop_last() =~= duration@.take(i as int));
            }
            w = w + duration[i] as u128;
            let n1 = path[i].name;
            let n2 = path[i + 1].name;
            moves.push(
                Move {
                    w,
                    t: train.name,
                    n1,
                    p1: marker(n1, package.start, package.name),
                    n2,
                    p2: marker(n2, package.dest, package.name),
                },
            );
            i += 1;
        }
        assert(moves@ =~= timeline(train, path@, package, duration@));
        assert forall|k: int| 0 < k < moves@.len() implies (#[trigger] moves@[k]).w == total(
            duration@.take(k),
        ) by {
            lemma_total_bound(duration@.take(k));
        }
        moves
    }
}

} // verus!
