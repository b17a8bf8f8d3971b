//! Scheduling values: a finite amount, or the cost of an option that cannot
//! be chosen.

use vstd::prelude::*;

verus! {

/// What choosing an option would cost at a decision. An option of weight zero
/// costs more than any amount.
#[derive(Clone, Copy, Debug, PartialEq, Eq, Structural)]
pub enum Cost {
    /// An amount in units.
    Finite(i128),
    /// More than every finite amount.
    Infinite,
}

impl Cost {
    /// Whether `self` is strictly less than `other`. Two infinite costs are
    /// level with each other.
    pub open spec fn before(self, other: Cost) -> bool {
        match self {
            Cost::Finite(a) => match other {
                Cost::Finite(b) => a < b,
                Cost::Infinite => true,
            },
            Cost::Infinite => false,
        }
    }

    /// The amount of a finite cost.
    pub open spec fn amount(self) -> int
        recommends
            self is Finite,
    {
        match self {
            Cost::Finite(a) => a as int,
            Cost::Infinite => 0,
        }
    }

    /// Decides [`Cost::before`].
    pub fn is_before(&self, other: &Cost) -> (b: bool)
        ensures
            b == self.before(*other),
    {
        match self {
            Cost::Finite(a) => match other {
                Cost::Finite(b) => *a < *b,
                Cost::Infinite => true,
            },
            Cost::Infinite => false,
        }
    }
}

/// The order in which the options at indices `i` and `j` are tried: by cost,
/// and among options of level cost by index.
pub open spec fn ranks_before(costs: Seq<Cost>, i: int, j: int) -> bool {
    costs[i].before(costs[j]) || (!costs[j].before(costs[i]) && i < j)
}

/// Of two distinct indices exactly one ranks before the other.
pub proof fn lemma_ranks_total(costs: Seq<Cost>, i: int, j: int)
    ensures
        i != j ==> (ranks_before(costs, i, j) <==> !ranks_before(costs, j, i)),
        !ranks_before(costs, i, i),
{
}

/// Ranking is transitive.
pub proof fn lemma_ranks_transitive(costs: Seq<Cost>, i: int, j: int, k: int)
    requires
        ranks_before(costs, i, j),
        ranks_before(costs, j, k),
    ensures
        ranks_before(costs, i, k),
{
}

} // verus!
