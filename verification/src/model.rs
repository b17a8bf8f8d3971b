//! What a selector computes, stated over sequences of integers.
//!
//! A [`Setup`] is the configuration of a run: one row of weights, of random
//! perturbations and of acceptability flags per decision, and one
//! heterogeneity and one accent per decision. The running statistics are a
//! sequence of integers, one per option.

use vstd::prelude::*;
use crate::cost::{Cost, ranks_before};
use crate::error::StatfeedError;
use crate::fixed::{NUMERATOR_LIMIT, SCALED_LIMIT, SCALE, STAT_LIMIT, lemma_numerator_bounds, lemma_quotient_bounds, quotient};
use crate::grid::constant_grid;

verus! {

/// What an option pays when it is chosen: `accent / weight`, in units.
pub open spec fn base_cost(accent: i64, weight: u64) -> int {
    quotient(accent * SCALE, weight as int)
}

/// What an option is charged when the options of a decision are ranked:
/// `(accent + heterogeneity * random) / weight`, in units.
pub open spec fn expected_cost(accent: i64, heterogeneity: i64, random: i64, weight: u64) -> int {
    quotient(accent * SCALE + heterogeneity * random, weight as int)
}

/// The heterogeneity of every decision of a new selector: one tenth.
pub const DEFAULT_HETEROGENEITY: i64 = 100_000_000_000;

/// The accent of every decision of a new selector: one.
pub const DEFAULT_ACCENT: i64 = 1_000_000_000_000;

/// The weight of every option of a new selector: one over the number of
/// options, rounded down.
pub open spec fn uniform_weight(n: int) -> u64 {
    (SCALE as int / n) as u64
}

/// The sum of a row of weights.
pub open spec fn weight_total(row: Seq<u64>) -> int
    decreases row.len(),
{
    if row.len() == 0 {
        0
    } else {
        weight_total(row.drop_last()) + row.last()
    }
}

/// The cost of an option of the given weight: infinite at weight zero, and
/// else the given amount.
pub open spec fn priced(weight: u64, amount: int) -> Cost {
    if weight == 0 {
        Cost::Infinite
    } else {
        Cost::Finite(amount as i128)
    }
}

/// Whether every statistic is within [`STAT_LIMIT`] of zero.
pub open spec fn within_limit(statistics: Seq<int>) -> bool {
    forall|o: int| 0 <= o < statistics.len() ==> -STAT_LIMIT <= #[trigger] statistics[o] <= STAT_LIMIT
}

/// The configuration of a run.
pub struct Setup {
    /// The relative priority of each option at each decision.
    pub weights: Seq<Seq<u64>>,
    /// The perturbation of each option at each decision.
    pub randoms: Seq<Seq<i64>>,
    /// How strongly the perturbation counts at each decision.
    pub heterogeneities: Seq<i64>,
    /// How much a pick costs at each decision.
    pub accents: Seq<i64>,
    /// Which options may be picked at each decision.
    pub acceptable: Seq<Seq<bool>>,
}

/// The picks of a run, in the order of the decisions, and the statistics it
/// leaves behind.
pub struct Outcome {
    /// The index of the option picked at each decision.
    pub picks: Seq<int>,
    /// The statistics after the last decision.
    pub statistics: Seq<int>,
}

impl Setup {
    /// The setup of a new selector over `n` options and `size` decisions:
    /// uniform weights, the given perturbations, the default heterogeneity
    /// and accent, and every option acceptable.
    pub open spec fn initial(n: int, size: int, randoms: Seq<Seq<i64>>) -> Setup {
        Setup {
            weights: constant_grid(uniform_weight(n), size, n),
            randoms,
            heterogeneities: Seq::new(size as nat, |d: int| DEFAULT_HETEROGENEITY),
            accents: Seq::new(size as nat, |d: int| DEFAULT_ACCENT),
            acceptable: constant_grid(true, size, n),
        }
    }

    /// The number of decisions.
    pub open spec fn size(self) -> int {
        self.accents.len() as int
    }

    /// Whether the setup has one entry per decision everywhere and, within
    /// each decision, one entry for each of `n` options.
    pub open spec fn well_formed(self, n: int) -> bool {
        &&& n > 0
        &&& self.weights.len() == self.size()
        &&& self.randoms.len() == self.size()
        &&& self.heterogeneities.len() == self.size()
        &&& self.acceptable.len() == self.size()
        &&& forall|d: int| 0 <= d < self.size() ==> (#[trigger] self.weights[d]).len() == n
        &&& forall|d: int| 0 <= d < self.size() ==> (#[trigger] self.randoms[d]).len() == n
        &&& forall|d: int| 0 <= d < self.size() ==> (#[trigger] self.acceptable[d]).len() == n
    }

    /// What option `o` pays when it is chosen at decision `d`.
    pub open spec fn increment(self, d: int, o: int) -> int {
        base_cost(self.accents[d], self.weights[d][o])
    }

    /// What option `o` is charged when decision `d` is ranked.
    pub open spec fn expected(self, d: int, o: int) -> int {
        expected_cost(
            self.accents[d],
            self.heterogeneities[d],
            self.randoms[d][o],
            self.weights[d][o],
        )
    }

    /// The scheduling value of option `o` at decision `d`, for an option of
    /// positive weight.
    pub open spec fn value(self, statistics: Seq<int>, d: int, o: int) -> int {
        statistics[o] + self.expected(d, o)
    }

    /// The scheduling value of option `o` at decision `d` as a cost: infinite
    /// for an option of weight zero.
    pub open spec fn cost(self, statistics: Seq<int>, d: int, o: int) -> Cost {
        priced(self.weights[d][o], self.value(statistics, d, o))
    }

    /// The scheduling values of all options at decision `d`.
    pub open spec fn costs(self, statistics: Seq<int>, d: int) -> Seq<Cost> {
        Seq::new(statistics.len(), |o: int| self.cost(statistics, d, o))
    }

    /// Whether option `o` can be picked at decision `d`: it is acceptable and
    /// its weight is positive.
    pub open spec fn eligible(self, d: int, o: int) -> bool {
        &&& 0 <= o < self.weights[d].len()
        &&& self.weights[d][o] > 0
        &&& self.acceptable[d][o]
    }

    /// Whether some option can be picked at decision `d`.
    pub open spec fn decidable(self, d: int) -> bool {
        exists|o: int| self.eligible(d, o)
    }

    /// Whether option `o` is tried no later than option `p` at decision `d`:
    /// its value is less, or the values are equal and `o` comes first.
    pub open spec fn outranks(self, statistics: Seq<int>, d: int, o: int, p: int) -> bool {
        let vo = self.value(statistics, d, o);
        let vp = self.value(statistics, d, p);
        vo < vp || (vo == vp && o <= p)
    }

    /// Whether option `o` is the one to pick at decision `d`: it can be
    /// picked, and no option that can be picked is tried before it.
    pub open spec fn is_pick(self, statistics: Seq<int>, d: int, o: int) -> bool {
        &&& self.eligible(d, o)
        &&& forall|p: int| #[trigger] self.eligible(d, p) ==> self.outranks(statistics, d, o, p)
    }

    /// The option to pick at decision `d`, if any can be picked.
    pub open spec fn pick(self, statistics: Seq<int>, d: int) -> Option<int> {
        if exists|o: int| self.is_pick(statistics, d, o) {
            Some(choose|o: int| self.is_pick(statistics, d, o))
        } else {
            None
        }
    }

    /// What every option of positive weight is relieved of after decision
    /// `d`: the accent over the sum of the weights.
    pub open spec fn normalization(self, d: int) -> int {
        quotient(self.accents[d] * SCALE, weight_total(self.weights[d]))
    }

    /// The statistics after option `o` has paid for being chosen at decision `d`.
    pub open spec fn incremented(self, statistics: Seq<int>, d: int, o: int) -> Seq<int> {
        statistics.update(o, statistics[o] + self.increment(d, o))
    }

    /// The statistics after every option of positive weight at decision `d`
    /// has been relieved of the normalization.
    pub open spec fn normalized(self, statistics: Seq<int>, d: int) -> Seq<int> {
        Seq::new(
            statistics.len(),
            |o: int|
                if self.weights[d][o] > 0 {
                    statistics[o] - self.normalization(d)
                } else {
                    statistics[o]
                },
        )
    }

    /// The statistics after decision `d` has picked option `o`: the increment
    /// first, then the normalization.
    pub open spec fn settled(self, statistics: Seq<int>, d: int, o: int) -> Seq<int> {
        self.normalized(self.incremented(statistics, d, o), d)
    }

    /// The first `k` decisions, run in order from the given statistics. The
    /// run fails at the first decision at which no option can be picked or
    /// after which a statistic is out of bounds.
    pub open spec fn run(self, statistics: Seq<int>, k: nat) -> Result<Outcome, StatfeedError>
        decreases k,
    {
        if k == 0 {
            Ok(Outcome { picks: Seq::empty(), statistics })
        } else {
            match self.run(statistics, (k - 1) as nat) {
                Err(e) => Err(e),
                Ok(so_far) => match self.pick(so_far.statistics, k - 1) {
                    None => Err(StatfeedError::NoAcceptableOption),
                    Some(o) => {
                        let after = self.settled(so_far.statistics, k - 1, o);
                        if within_limit(after) {
                            Ok(Outcome { picks: so_far.picks.push(o), statistics: after })
                        } else {
                            Err(StatfeedError::StatisticsOverflow)
                        }
                    },
                },
            }
        }
    }
}

/// What an option of positive weight pays does not exceed [`SCALED_LIMIT`] in
/// magnitude, nor what it is charged [`NUMERATOR_LIMIT`].
pub proof fn lemma_charge_bounds(accent: i64, heterogeneity: i64, random: i64, weight: u64)
    requires
        weight > 0,
    ensures
        -SCALED_LIMIT <= base_cost(accent, weight) <= SCALED_LIMIT,
        -NUMERATOR_LIMIT <= expected_cost(accent, heterogeneity, random, weight) <= NUMERATOR_LIMIT,
{
    lemma_numerator_bounds(accent, heterogeneity, random);
    lemma_quotient_bounds(accent * SCALE, weight as int);
    lemma_quotient_bounds(accent * SCALE + heterogeneity * random, weight as int);
}

/// The sum of a row of weights grows by the entry that is added to the row.
pub proof fn lemma_total_step(row: Seq<u64>, i: int)
    requires
        0 <= i < row.len(),
    ensures
        weight_total(row.take(i + 1)) == weight_total(row.take(i)) + row[i],
{
    assert(row.take(i + 1).drop_last() =~= row.take(i));
}

/// No weight of a row is more than the sum of the row.
pub proof fn lemma_total_covers(row: Seq<u64>, o: int)
    requires
        0 <= o < row.len(),
    ensures
        row[o] <= weight_total(row),
        0 <= weight_total(row),
    decreases row.len(),
{
    lemma_total_nonnegative(row.drop_last());
    if o < row.len() - 1 {
        lemma_total_covers(row.drop_last(), o);
    }
}

/// The sum of a row of weights is not negative.
pub proof fn lemma_total_nonnegative(row: Seq<u64>)
    ensures
        0 <= weight_total(row),
    decreases row.len(),
{
    if row.len() > 0 {
        lemma_total_nonnegative(row.drop_last());
    }
}

/// At most one option is the pick of a decision.
pub proof fn lemma_pick_unique(setup: Setup, statistics: Seq<int>, d: int, o: int, p: int)
    requires
        setup.is_pick(statistics, d, o),
        setup.is_pick(statistics, d, p),
    ensures
        o == p,
{
    assert(setup.outranks(statistics, d, o, p));
    assert(setup.outranks(statistics, d, p, o));
}

/// The option that is the pick of a decision is what [`Setup::pick`] gives.
pub proof fn lemma_pick_is(setup: Setup, statistics: Seq<int>, d: int, o: int)
    requires
        setup.is_pick(statistics, d, o),
    ensures
        setup.pick(statistics, d) == Some(o),
{
    let c = choose|c: int| setup.is_pick(statistics, d, c);
    lemma_pick_unique(setup, statistics, d, o, c);
}

/// Among the first `n` options, one that can be picked and that none of
/// them is tried before, wherever one of them can be picked.
proof fn lemma_least_among(setup: Setup, statistics: Seq<int>, d: int, n: int) -> (o: int)
    requires
        0 <= n <= setup.weights[d].len(),
        exists|p: int| 0 <= p < n && setup.eligible(d, p),
    ensures
        0 <= o < n,
        setup.eligible(d, o),
        forall|p: int|
            0 <= p < n && #[trigger] setup.eligible(d, p) ==> setup.outranks(statistics, d, o, p),
    decreases n,
{
    let last = n - 1;
    if exists|p: int| 0 <= p < last && setup.eligible(d, p) {
        let best = lemma_least_among(setup, statistics, d, last);
        if setup.eligible(d, last) && !setup.outranks(statistics, d, best, last) {
            assert forall|p: int| 0 <= p < n && #[trigger] setup.eligible(d, p) implies setup.outranks(
                statistics,
                d,
                last,
                p,
            ) by {
                if p < last {
                    assert(setup.outranks(statistics, d, best, p));
                }
            }
            last
        } else {
            best
        }
    } else {
        last
    }
}

/// A decision has a pick exactly when one of its options can be picked.
pub proof fn lemma_pick_exists(setup: Setup, statistics: Seq<int>, d: int)
    ensures
        setup.pick(statistics, d) is Some <==> setup.decidable(d),
        setup.pick(statistics, d) matches Some(o) ==> setup.is_pick(statistics, d, o),
{
    if setup.decidable(d) {
        let p = choose|p: int| setup.eligible(d, p);
        let n = setup.weights[d].len() as int;
        assert(0 <= p < n && setup.eligible(d, p));
        let o = lemma_least_among(setup, statistics, d, n);
        assert(setup.is_pick(statistics, d, o));
    }
    if setup.pick(statistics, d) is Some {
        let o = choose|o: int| setup.is_pick(statistics, d, o);
        assert(setup.eligible(d, o));
    }
}

} // verus!

verus! {

/// A run that has failed stays failed, with the same error, however many
/// decisions follow.
pub proof fn lemma_run_stays_failed(setup: Setup, statistics: Seq<int>, k: nat, m: nat)
    requires
        k <= m,
        setup.run(statistics, k) is Err,
    ensures
        setup.run(statistics, m) == setup.run(statistics, k),
    decreases m,
{
    if k < m {
        lemma_run_stays_failed(setup, statistics, k, (m - 1) as nat);
    }
}

/// The cost of an option of positive weight is its scheduling value.
pub proof fn lemma_cost_amount(setup: Setup, statistics: Seq<int>, d: int, o: int)
    requires
        within_limit(statistics),
        0 <= o < statistics.len(),
        setup.weights[d][o] > 0,
    ensures
        setup.cost(statistics, d, o) is Finite,
        setup.cost(statistics, d, o).amount() == setup.value(statistics, d, o),
{
    lemma_charge_bounds(
        setup.accents[d],
        setup.heterogeneities[d],
        setup.randoms[d][o],
        setup.weights[d][o],
    );
}

/// Between two distinct options of positive weight, the one that ranks
/// before the other by cost is the one that is tried no later.
pub proof fn lemma_rank_agrees(setup: Setup, statistics: Seq<int>, d: int, o: int, p: int)
    requires
        within_limit(statistics),
        0 <= o < statistics.len(),
        0 <= p < statistics.len(),
        setup.weights[d][o] > 0,
        setup.weights[d][p] > 0,
        o != p,
    ensures
        ranks_before(setup.costs(statistics, d), o, p) <==> setup.outranks(statistics, d, o, p),
{
    lemma_cost_amount(setup, statistics, d, o);
    lemma_cost_amount(setup, statistics, d, p);
}

/// A run of `k` decisions that succeeds makes `k` picks, each of an option
/// that is acceptable and of positive weight at its decision, and leaves one
/// statistic per option. A run of no decisions leaves the statistics as they
/// were.
pub proof fn lemma_run_shape(setup: Setup, statistics: Seq<int>, k: nat)
    requires
        setup.well_formed(statistics.len() as int),
        k <= setup.size(),
    ensures
        setup.run(statistics, k) matches Ok(outcome) ==> {
            &&& outcome.picks.len() == k
            &&& outcome.statistics.len() == statistics.len()
            &&& k == 0 ==> outcome.statistics == statistics
            &&& k > 0 ==> within_limit(outcome.statistics)
            &&& forall|d: int| 0 <= d < k ==> setup.eligible(d, #[trigger] outcome.picks[d])
        },
    decreases k,
{
    if k > 0 {
        lemma_run_shape(setup, statistics, (k - 1) as nat);
        if let Ok(so_far) = setup.run(statistics, (k - 1) as nat) {
            lemma_pick_exists(setup, so_far.statistics, k - 1);
            if let Ok(outcome) = setup.run(statistics, k) {
                let o = setup.pick(so_far.statistics, k - 1).unwrap();
                assert(outcome.picks == so_far.picks.push(o));
                assert(outcome.statistics == setup.settled(so_far.statistics, k - 1, o));
                assert forall|d: int| 0 <= d < k implies setup.eligible(
                    d,
                    #[trigger] outcome.picks[d],
                ) by {
                    if d < k - 1 {
                        assert(outcome.picks[d] == so_far.picks[d]);
                    }
                }
            }
        }
    }
}

} // verus!
