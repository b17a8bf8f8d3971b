//! The selector.

use vstd::prelude::*;
use crate::cost::{Cost, ranks_before};
use crate::error::StatfeedError;
use crate::fixed::{SCALE, SCALED_LIMIT, STAT_LIMIT, div_floor, perturbed, scaled};
use crate::grid::{constant_grid, filled, filled_rows, has_shape, is_grid, rows};
use crate::model::{
    DEFAULT_ACCENT, DEFAULT_HETEROGENEITY, Outcome, Setup, lemma_charge_bounds, lemma_pick_exists,
    lemma_pick_is, lemma_rank_agrees, lemma_run_shape, lemma_run_stays_failed, lemma_total_covers,
    lemma_total_step, priced, uniform_weight, weight_total, within_limit,
};
use crate::order::{is_stable_order, order_range, stable_order, stable_order_of};
use crate::source::{is_unit_row, random_rows};

verus! {

/// The statistics of a selector as integers.
pub open spec fn ints(statistics: Seq<i128>) -> Seq<int> {
    statistics.map_values(|s: i128| s as int)
}

/// The choices of a selector as integers.
pub open spec fn indices(choices: Seq<usize>) -> Seq<int> {
    choices.map_values(|c: usize| c as int)
}

/// A selector: a list of options, the configuration of each decision, the
/// running statistics and the choices of the last run.
pub struct Statfeed<T> {
    options: Vec<T>,
    weights: Vec<Vec<u64>>,
    randoms: Vec<Vec<i64>>,
    heterogeneities: Vec<i64>,
    accents: Vec<i64>,
    acceptable: Vec<Vec<bool>>,
    statistics: Vec<i128>,
    choices: Vec<usize>,
}

/// What a selector holds, as mathematical values.
pub struct StatfeedView<T> {
    /// The options, in the order in which they were given.
    pub options: Seq<T>,
    /// The configuration of the decisions.
    pub setup: Setup,
    /// The running statistic of each option.
    pub statistics: Seq<int>,
    /// The index of the option chosen at each decision of the last run.
    pub picks: Seq<int>,
}

impl<T> View for Statfeed<T> {
    type V = StatfeedView<T>;

    closed spec fn view(&self) -> StatfeedView<T> {
        StatfeedView {
            options: self.options@,
            setup: Setup {
                weights: rows(self.weights@),
                randoms: rows(self.randoms@),
                heterogeneities: self.heterogeneities@,
                accents: self.accents@,
                acceptable: rows(self.acceptable@),
            },
            statistics: ints(self.statistics@),
            picks: indices(self.choices@),
        }
    }
}

impl<T> StatfeedView<T> {
    /// The view of a new selector over the given options and perturbations.
    pub open spec fn initial(options: Seq<T>, size: int, randoms: Seq<Seq<i64>>) -> StatfeedView<T> {
        StatfeedView {
            options,
            setup: Setup::initial(options.len() as int, size, randoms),
            statistics: Seq::new(options.len(), |o: int| 0int),
            picks: Seq::empty(),
        }
    }
}

impl<T> StatfeedView<T> {
    /// Whether a run takes a selector from `self` to `after` with the result
    /// `res`. A run that succeeds replaces the choices and the statistics by
    /// those of the run of all decisions; one that fails says why and leaves
    /// everything as it was.
    pub open spec fn populated(self, after: StatfeedView<T>, res: Result<(), StatfeedError>) -> bool {
        &&& after.options == self.options
        &&& after.setup == self.setup
        &&& match self.setup.run(self.statistics, self.setup.size() as nat) {
            Ok(outcome) => {
                &&& res is Ok
                &&& after.picks == outcome.picks
                &&& after.statistics == outcome.statistics
            },
            Err(e) => res == Err::<(), StatfeedError>(e) && after == self,
        }
    }
}

impl<T> Statfeed<T> {
    /// Whether the selector is consistent: there is at least one option,
    /// every vector has one entry per decision, every row and the statistics
    /// have one entry per option, no statistic is out of bounds, and every
    /// choice names an option.
    pub open spec fn wf(&self) -> bool {
        &&& self@.setup.well_formed(self@.options.len() as int)
        &&& self@.statistics.len() == self@.options.len()
        &&& within_limit(self@.statistics)
        &&& forall|k: int| 0 <= k < self@.picks.len() ==> 0 <= #[trigger] self@.picks[k] < self@.options.len()
    }

    /// A selector over `options` for `size` decisions, with the given
    /// perturbations: uniform weights, a heterogeneity of one tenth and an
    /// accent of one at every decision, every option acceptable, all
    /// statistics zero and no choices yet.
    ///
    /// Fails where there is no option, or where `randoms` does not hold one
    /// row per decision and in each row one entry per option. The uniform
    /// weight is one over the number of options, rounded down to whole units.
    pub fn with_randoms(options: Vec<T>, size: usize, randoms: Vec<Vec<i64>>) -> (res: Result<
        Statfeed<T>,
        StatfeedError,
    >)
        ensures
            res is Ok <==> options@.len() > 0 && is_grid(
                rows(randoms@),
                size as int,
                options@.len() as int,
            ),
            res matches Ok(sf) ==> sf.wf() && sf@ == StatfeedView::initial(
                options@,
                size as int,
                rows(randoms@),
            ),
            res matches Err(e) ==> e == StatfeedError::InvalidConfiguration,
    {
        let n: usize = options.len();
        if n == 0 || !has_shape(&randoms, size, n) {
            return Err(StatfeedError::InvalidConfiguration);
        }
        let weight: u64 = (SCALE as u64) / (n as u64);
        let sf = Statfeed {
            options,
            weights: filled_rows(weight, size, n),
            randoms,
            heterogeneities: filled(DEFAULT_HETEROGENEITY, size),
            accents: filled(DEFAULT_ACCENT, size),
            acceptable: filled_rows(true, size, n),
            statistics: filled(0i128, n),
            choices: Vec::new(),
        };
        proof {
            assert(weight == uniform_weight(n as int));
            assert(sf@.statistics =~= Seq::new(n as nat, |o: int| 0int));
            assert(sf@.picks =~= Seq::empty());
            assert(sf@.setup.weights == constant_grid(uniform_weight(n as int), size as int, n as int));
            assert(sf@ == StatfeedView::initial(sf@.options, size as int, sf@.setup.randoms));
        }
        Ok(sf)
    }

    /// A selector over `options` for `size` decisions, as
    /// [`Statfeed::with_randoms`] makes it, with every perturbation drawn
    /// from zero up to, and excluding, one.
    ///
    /// Fails where there is no option.
    pub fn new(options: Vec<T>, size: usize) -> (res: Result<Statfeed<T>, StatfeedError>)
        ensures
            res is Ok <==> options@.len() > 0,
            res matches Ok(sf) ==> {
                &&& sf.wf()
                &&& sf@ == StatfeedView::initial(options@, size as int, sf@.setup.randoms)
                &&& forall|d: int| 0 <= d < size ==> is_unit_row(#[trigger] sf@.setup.randoms[d])
            },
            res matches Err(e) ==> e == StatfeedError::InvalidConfiguration,
    {
        if options.len() == 0 {
            return Err(StatfeedError::InvalidConfiguration);
        }
        let randoms = random_rows(size, options.len());
        let res = Statfeed::with_randoms(options, size, randoms);
        proof {
            assert forall|d: int| 0 <= d < size implies is_unit_row(#[trigger] rows(randoms@)[d]) by {
                assert(is_unit_row(randoms@[d]@));
            }
        }
        res
    }

    /// The number of decisions.
    pub fn size(&self) -> (size: usize)
        ensures
            size == self@.setup.size(),
    {
        self.accents.len()
    }

    /// The options, in the order in which they were given.
    pub fn options(&self) -> (options: &Vec<T>)
        ensures
            options@ == self@.options,
    {
        &self.options
    }

    /// The weight of each option at each decision.
    pub fn weights(&self) -> (weights: &Vec<Vec<u64>>)
        ensures
            rows(weights@) == self@.setup.weights,
    {
        &self.weights
    }

    /// The perturbation of each option at each decision.
    pub fn randoms(&self) -> (randoms: &Vec<Vec<i64>>)
        ensures
            rows(randoms@) == self@.setup.randoms,
    {
        &self.randoms
    }

    /// The heterogeneity of each decision.
    pub fn heterogeneities(&self) -> (heterogeneities: &Vec<i64>)
        ensures
            heterogeneities@ == self@.setup.heterogeneities,
    {
        &self.heterogeneities
    }

    /// The accent of each decision.
    pub fn accents(&self) -> (accents: &Vec<i64>)
        ensures
            accents@ == self@.setup.accents,
    {
        &self.accents
    }

    /// Which options may be picked at each decision.
    pub fn acceptable(&self) -> (acceptable: &Vec<Vec<bool>>)
        ensures
            rows(acceptable@) == self@.setup.acceptable,
    {
        &self.acceptable
    }

    /// The running statistic of each option.
    pub fn statistics(&self) -> (statistics: &Vec<i128>)
        ensures
            ints(statistics@) == self@.statistics,
    {
        &self.statistics
    }

    /// The index of the option chosen at each decision of the last run.
    pub fn choice_indices(&self) -> (choices: &Vec<usize>)
        ensures
            indices(choices@) == self@.picks,
    {
        &self.choices
    }

    /// The option chosen at each decision of the last run.
    pub fn choices(&self) -> (choices: Vec<&T>)
        requires
            self.wf(),
        ensures
            choices@.len() == self@.picks.len(),
            forall|k: int|
                0 <= k < choices@.len() ==> *(#[trigger] choices@[k]) == self@.options[self@.picks[k]],
    {
        let mut choices: Vec<&T> = Vec::new();
        let mut k: usize = 0;
        while k < self.choices.len()
            invariant
                self.wf(),
                k <= self.choices@.len(),
                choices@.len() == k,
                forall|i: int|
                    0 <= i < k ==> *(#[trigger] choices@[i]) == self@.options[self@.picks[i]],
            decreases self.choices@.len() - k,
        {
            assert(0 <= self@.picks[k as int] < self@.options.len());
            choices.push(&self.options[self.choices[k]]);
            k = k + 1;
        }
        choices
    }
}

/// The sum of a row of weights.
pub fn row_total(row: &Vec<u64>) -> (total: u128)
    ensures
        total == weight_total(row@),
{
    let mut total: u128 = 0;
    let mut o: usize = 0;
    while o < row.len()
        invariant
            o <= row@.len(),
            total == weight_total(row@.take(o as int)),
            total <= o * 0xffff_ffff_ffff_ffff,
        decreases row@.len() - o,
    {
        proof {
            lemma_total_step(row@, o as int);
        }
        total = total + (row[o] as u128);
        o = o + 1;
    }
    assert(row@.take(o as int) =~= row@);
    total
}

/// Whether every statistic is within bounds.
pub fn fits(statistics: &Vec<i128>) -> (b: bool)
    ensures
        b == within_limit(ints(statistics@)),
{
    let mut o: usize = 0;
    while o < statistics.len()
        invariant
            o <= statistics@.len(),
            forall|p: int| 0 <= p < o ==> -STAT_LIMIT <= #[trigger] ints(statistics@)[p] <= STAT_LIMIT,
        decreases statistics@.len() - o,
    {
        if statistics[o] < -STAT_LIMIT || statistics[o] > STAT_LIMIT {
            assert(!(-STAT_LIMIT <= ints(statistics@)[o as int] <= STAT_LIMIT));
            return false;
        }
        o = o + 1;
    }
    true
}

impl<T> Statfeed<T> {
    /// Whether `option` may be picked at `decision`, its weight aside.
    pub fn is_acceptable(&self, decision: usize, option: usize) -> (b: bool)
        requires
            self.wf(),
            decision < self@.setup.size(),
            option < self@.options.len(),
        ensures
            b == self@.setup.acceptable[decision as int][option as int],
    {
        assert(rows(self.acceptable@)[decision as int].len() == self@.options.len());
        self.acceptable[decision][option]
    }

    /// What `option` pays when it is chosen at `decision`: the accent over
    /// its weight.
    pub fn true_increment(&self, decision: usize, option: usize) -> (cost: Cost)
        requires
            self.wf(),
            decision < self@.setup.size(),
            option < self@.options.len(),
        ensures
            cost == priced(
                self@.setup.weights[decision as int][option as int],
                self@.setup.increment(decision as int, option as int),
            ),
    {
        assert(rows(self.weights@)[decision as int].len() == self@.options.len());
        let weight: u64 = self.weights[decision][option];
        if weight == 0 {
            Cost::Infinite
        } else {
            Cost::Finite(div_floor(scaled(self.accents[decision]), weight as u128))
        }
    }

    /// What `option` is charged when `decision` is ranked: the accent, plus
    /// the heterogeneity times the option's perturbation, over its weight.
    pub fn expected_increment(&self, decision: usize, option: usize) -> (cost: Cost)
        requires
            self.wf(),
            decision < self@.setup.size(),
            option < self@.options.len(),
        ensures
            cost == priced(
                self@.setup.weights[decision as int][option as int],
                self@.setup.expected(decision as int, option as int),
            ),
    {
        assert(rows(self.weights@)[decision as int].len() == self@.options.len());
        assert(rows(self.randoms@)[decision as int].len() == self@.options.len());
        let weight: u64 = self.weights[decision][option];
        if weight == 0 {
            Cost::Infinite
        } else {
            let numerator: i128 = perturbed(
                self.accents[decision],
                self.heterogeneities[decision],
                self.randoms[decision][option],
            );
            Cost::Finite(div_floor(numerator, weight as u128))
        }
    }

    /// The scheduling value of every option at `decision`, against the given
    /// statistics.
    fn costs_against(&self, statistics: &Vec<i128>, decision: usize) -> (costs: Vec<Cost>)
        requires
            self.wf(),
            decision < self@.setup.size(),
            statistics@.len() == self@.options.len(),
            within_limit(ints(statistics@)),
        ensures
            costs@ == self@.setup.costs(ints(statistics@), decision as int),
    {
        let n: usize = self.options.len();
        let mut costs: Vec<Cost> = Vec::new();
        let mut o: usize = 0;
        while o < n
            invariant
                self.wf(),
                decision < self@.setup.size(),
                statistics@.len() == n,
                n == self@.options.len(),
                within_limit(ints(statistics@)),
                o <= n,
                costs@.len() == o,
                forall|p: int|
                    0 <= p < o ==> #[trigger] costs@[p] == self@.setup.cost(
                        ints(statistics@),
                        decision as int,
                        p,
                    ),
            decreases n - o,
        {
            proof {
                if self@.setup.weights[decision as int][o as int] > 0 {
                    lemma_charge_bounds(
                        self@.setup.accents[decision as int],
                        self@.setup.heterogeneities[decision as int],
                        self@.setup.randoms[decision as int][o as int],
                        self@.setup.weights[decision as int][o as int],
                    );
                }
            }
            let cost = match self.expected_increment(decision, o) {
                Cost::Infinite => Cost::Infinite,
                Cost::Finite(charge) => {
                    assert(-STAT_LIMIT <= ints(statistics@)[o as int] <= STAT_LIMIT);
                    Cost::Finite(statistics[o] + charge)
                },
            };
            costs.push(cost);
            o = o + 1;
        }
        assert(costs@ =~= self@.setup.costs(ints(statistics@), decision as int));
        costs
    }

    /// The scheduling value of every option at `decision`: its statistic plus
    /// what it is charged, and infinite for an option of weight zero.
    pub fn scheduling_values(&self, decision: usize) -> (costs: Vec<Cost>)
        requires
            self.wf(),
            decision < self@.setup.size(),
        ensures
            costs@ == self@.setup.costs(self@.statistics, decision as int),
    {
        self.costs_against(&self.statistics, decision)
    }
}

/// Whether every statistic is within bounds or beyond them by no more than
/// one increment.
pub open spec fn within_slack(statistics: Seq<int>) -> bool {
    forall|o: int|
        0 <= o < statistics.len() ==> -STAT_LIMIT - SCALED_LIMIT <= #[trigger] statistics[o]
            <= STAT_LIMIT + SCALED_LIMIT
}

impl<T> Statfeed<T> {
    /// The option to pick at `decision` against the given statistics: of the
    /// options in ascending order of scheduling value, the first that is
    /// acceptable and of positive weight.
    fn pick_against(&self, statistics: &Vec<i128>, decision: usize) -> (res: Option<usize>)
        requires
            self.wf(),
            decision < self@.setup.size(),
            statistics@.len() == self@.options.len(),
            within_limit(ints(statistics@)),
        ensures
            res matches Some(o) ==> o < self@.options.len() && self@.setup.pick(
                ints(statistics@),
                decision as int,
            ) == Some(o as int),
            res is None ==> self@.setup.pick(ints(statistics@), decision as int) is None,
    {
        let ghost setup = self@.setup;
        let ghost stats = ints(statistics@);
        let ghost d = decision as int;
        let costs = self.costs_against(statistics, decision);
        let order = stable_order(costs.as_slice());
        assert(setup.weights[d].len() == self@.options.len());
        let mut k: usize = 0;
        while k < order.len()
            invariant
                self.wf(),
                setup == self@.setup,
                stats == ints(statistics@),
                d == decision as int,
                decision < self@.setup.size(),
                statistics@.len() == self@.options.len(),
                within_limit(stats),
                setup.weights[d].len() == self@.options.len(),
                costs@ == setup.costs(stats, d),
                is_stable_order(costs@, 0, costs@.len() as int, order@),
                k <= order@.len(),
                forall|i: int| 0 <= i < k ==> !setup.eligible(d, #[trigger] order@[i] as int),
            decreases order@.len() - k,
        {
            let o: usize = order[k];
            assert(rows(self.weights@)[d].len() == self@.options.len());
            if self.weights[decision][o] > 0 && self.is_acceptable(decision, o) {
                proof {
                    assert forall|p: int| #[trigger] setup.eligible(d, p) implies setup.outranks(
                        stats,
                        d,
                        o as int,
                        p,
                    ) by {
                        if p != o {
                            assert(order@.contains(p as usize));
                            let j = choose|j: int| 0 <= j < order@.len() && order@[j] == p as usize;
                            assert(j > k);
                            assert(ranks_before(costs@, order@[k as int] as int, order@[j] as int));
                            lemma_rank_agrees(setup, stats, d, o as int, p);
                        }
                    }
                    lemma_pick_is(setup, stats, d, o as int);
                }
                return Some(o);
            }
            k = k + 1;
        }
        proof {
            lemma_pick_exists(setup, stats, d);
            if setup.decidable(d) {
                let p = choose|p: int| setup.eligible(d, p);
                assert(order@.contains(p as usize));
                let j = choose|j: int| 0 <= j < order@.len() && order@[j] == p as usize;
                assert(!setup.eligible(d, order@[j] as int));
            }
        }
        None
    }

    /// What every option of positive weight is relieved of after `decision`:
    /// the accent over the sum of the weights.
    fn normalization_value(&self, decision: usize) -> (value: i128)
        requires
            self.wf(),
            decision < self@.setup.size(),
            weight_total(self@.setup.weights[decision as int]) > 0,
        ensures
            value == self@.setup.normalization(decision as int),
            -SCALED_LIMIT <= value <= SCALED_LIMIT,
    {
        let total: u128 = row_total(&self.weights[decision]);
        div_floor(scaled(self.accents[decision]), total)
    }

    /// Adds to the statistic of `option` what it pays for being chosen at
    /// `decision`.
    fn increment_statistics(&self, statistics: &mut Vec<i128>, decision: usize, option: usize)
        requires
            self.wf(),
            decision < self@.setup.size(),
            option < self@.options.len(),
            old(statistics)@.len() == self@.options.len(),
            within_limit(ints(old(statistics)@)),
            self@.setup.weights[decision as int][option as int] > 0,
        ensures
            ints(final(statistics)@) == self@.setup.incremented(
                ints(old(statistics)@),
                decision as int,
                option as int,
            ),
            within_slack(ints(final(statistics)@)),
    {
        assert(rows(self.weights@)[decision as int].len() == self@.options.len());
        let paid: i128 = div_floor(
            scaled(self.accents[decision]),
            self.weights[decision][option] as u128,
        );
        assert(-STAT_LIMIT <= ints(statistics@)[option as int] <= STAT_LIMIT);
        let raised: i128 = statistics[option] + paid;
        statistics.set(option, raised);
        proof {
            assert(ints(statistics@) =~= self@.setup.incremented(
                ints(old(statistics)@),
                decision as int,
                option as int,
            ));
            assert forall|o: int| 0 <= o < statistics@.len() implies -STAT_LIMIT - SCALED_LIMIT
                <= #[trigger] ints(statistics@)[o] <= STAT_LIMIT + SCALED_LIMIT by {
                if o != option {
                    assert(-STAT_LIMIT <= ints(old(statistics)@)[o] <= STAT_LIMIT);
                }
            }
        }
    }

    /// Relieves every option of positive weight at `decision` of the
    /// normalization value.
    fn normalize_statistics(&self, statistics: &mut Vec<i128>, decision: usize)
        requires
            self.wf(),
            decision < self@.setup.size(),
            old(statistics)@.len() == self@.options.len(),
            within_slack(ints(old(statistics)@)),
            weight_total(self@.setup.weights[decision as int]) > 0,
        ensures
            ints(final(statistics)@) == self@.setup.normalized(
                ints(old(statistics)@),
                decision as int,
            ),
    {
        let n: usize = statistics.len();
        let relief: i128 = self.normalization_value(decision);
        let ghost before = ints(statistics@);
        let ghost after = self@.setup.normalized(before, decision as int);
        assert(rows(self.weights@)[decision as int].len() == n);
        let mut o: usize = 0;
        while o < n
            invariant
                self.wf(),
                decision < self@.setup.size(),
                n == self@.options.len(),
                statistics@.len() == n,
                rows(self.weights@)[decision as int].len() == n,
                before.len() == n,
                after.len() == n,
                within_slack(before),
                relief == self@.setup.normalization(decision as int),
                -SCALED_LIMIT <= relief <= SCALED_LIMIT,
                after == self@.setup.normalized(before, decision as int),
                o <= n,
                forall|p: int| 0 <= p < o ==> #[trigger] statistics@[p] as int == after[p],
                forall|p: int| o <= p < n ==> #[trigger] statistics@[p] as int == before[p],
            decreases n - o,
        {
            assert(statistics@[o as int] as int == before[o as int]);
            if self.weights[decision][o] > 0 {
                assert(-STAT_LIMIT - SCALED_LIMIT <= before[o as int] <= STAT_LIMIT
                    + SCALED_LIMIT);
                let lowered: i128 = statistics[o] - relief;
                statistics.set(o, lowered);
            }
            o = o + 1;
        }
        assert(ints(statistics@) =~= after);
    }

    /// Runs the decisions in order. At each, the options are ranked by
    /// scheduling value and the first that is acceptable and of positive
    /// weight is chosen; it pays its increment, and every option of positive
    /// weight is relieved of the normalization.
    ///
    /// The choices of an earlier run are replaced; its statistics are where
    /// this run starts, so that a second run makes up for the first. The run
    /// fails at the first decision at which no option is acceptable and of
    /// positive weight, or after which a statistic is out of bounds; the
    /// selector is then left as it was.
    pub fn populate_choices(&mut self) -> (res: Result<(), StatfeedError>)
        requires
            old(self).wf(),
        ensures
            final(self).wf(),
            old(self)@.populated(final(self)@, res),
            res is Ok ==> final(self)@.picks.len() == old(self)@.setup.size(),
            res is Ok ==> forall|d: int|
                0 <= d < final(self)@.picks.len() ==> old(self)@.setup.eligible(
                    d,
                    #[trigger] final(self)@.picks[d],
                ),
            old(self)@.setup.size() == 0 ==> res is Ok && final(self)@.statistics == old(
                self,
            )@.statistics,
    {
        let size: usize = self.accents.len();
        let n: usize = self.options.len();
        let ghost setup = self@.setup;
        let ghost start = self@.statistics;
        let mut statistics: Vec<i128> = Vec::new();
        let mut o: usize = 0;
        while o < n
            invariant
                n == self.statistics@.len(),
                o <= n,
                statistics@ == self.statistics@.take(o as int),
            decreases n - o,
        {
            statistics.push(self.statistics[o]);
            assert(statistics@ =~= self.statistics@.take(o + 1));
            o = o + 1;
        }
        assert(statistics@ =~= self.statistics@);
        let mut picks: Vec<usize> = Vec::new();
        let mut d: usize = 0;
        while d < size
            invariant
                *self == *old(self),
                self.wf(),
                setup == self@.setup,
                start == self@.statistics,
                size == setup.size(),
                n == self@.options.len(),
                d <= size,
                picks@.len() == d,
                statistics@.len() == n,
                within_limit(ints(statistics@)),
                forall|k: int| 0 <= k < d ==> #[trigger] picks@[k] < n,
                setup.run(start, d as nat) matches Ok(so_far) && so_far.picks == indices(picks@)
                    && so_far.statistics == ints(statistics@),
            decreases size - d,
        {
            let ghost before = ints(statistics@);
            match self.pick_against(&statistics, d) {
                None => {
                    proof {
                        assert(setup.run(start, (d + 1) as nat) == Err::<Outcome, StatfeedError>(
                            StatfeedError::NoAcceptableOption,
                        ));
                        lemma_run_stays_failed(setup, start, (d + 1) as nat, size as nat);
                    }
                    return Err(StatfeedError::NoAcceptableOption);
                },
                Some(option) => {
                    proof {
                        lemma_pick_exists(setup, before, d as int);
                        lemma_total_covers(setup.weights[d as int], option as int);
                    }
                    self.increment_statistics(&mut statistics, d, option);
                    self.normalize_statistics(&mut statistics, d);
                    assert(ints(statistics@) == setup.settled(before, d as int, option as int));
                    if !fits(&statistics) {
                        proof {
                            assert(setup.run(start, (d + 1) as nat) == Err::<Outcome, StatfeedError>(
                                StatfeedError::StatisticsOverflow,
                            ));
                            lemma_run_stays_failed(setup, start, (d + 1) as nat, size as nat);
                        }
                        return Err(StatfeedError::StatisticsOverflow);
                    }
                    picks.push(option);
                    proof {
                        assert(indices(picks@) =~= indices(picks@.drop_last()).push(option as int));
                    }
                },
            }
            d = d + 1;
        }
        self.statistics = statistics;
        self.choices = picks;
        proof {
            lemma_run_shape(setup, start, size as nat);
            assert forall|k: int| 0 <= k < final(self)@.picks.len() implies 0
                <= #[trigger] final(self)@.picks[k] < final(self)@.options.len() by {
                assert(picks@[k] < n);
            }
        }
        Ok(())
    }
}

/// Whether `sorted` holds the options at the indices that `order` lists, in
/// that order.
pub open spec fn lists_in_order<T>(options: Seq<T>, order: Seq<usize>, sorted: Seq<&T>) -> bool {
    &&& sorted.len() == order.len()
    &&& forall|k: int| 0 <= k < sorted.len() ==> *(#[trigger] sorted[k]) == options[order[k] as int]
}

/// The lesser of two lengths.
pub open spec fn shorter(a: int, b: int) -> int {
    if a <= b {
        a
    } else {
        b
    }
}

impl<T> Statfeed<T> {
    /// The options in ascending order of the given values, options of equal
    /// value in the order in which they were given. Where there are more
    /// options than values, or more values than options, what has no
    /// counterpart is left out.
    pub fn sort_options(&self, vals: &[Cost]) -> (sorted: Vec<&T>)
        ensures
            lists_in_order(
                self@.options,
                stable_order_of(vals@, 0, shorter(self@.options.len() as int, vals@.len() as int)),
                sorted@,
            ),
    {
        let n: usize = if self.options.len() <= vals.len() {
            self.options.len()
        } else {
            vals.len()
        };
        let order = order_range(vals, 0, n);
        let mut sorted: Vec<&T> = Vec::new();
        let mut k: usize = 0;
        while k < order.len()
            invariant
                n <= self.options@.len(),
                is_stable_order(vals@, 0, n as int, order@),
                k <= order@.len(),
                sorted@.len() == k,
                forall|i: int|
                    0 <= i < k ==> *(#[trigger] sorted@[i]) == self.options@[order@[i] as int],
            decreases order@.len() - k,
        {
            assert(order@[k as int] < n);
            sorted.push(&self.options[order[k]]);
            k = k + 1;
        }
        assert(lists_in_order(self@.options, order@, sorted@));
        sorted
    }

    /// Replaces the weights. Fails, and changes nothing, unless `weights`
    /// holds one row per decision and in each row one entry per option.
    pub fn set_weights(&mut self, weights: Vec<Vec<u64>>) -> (res: Result<(), StatfeedError>)
        requires
            old(self).wf(),
        ensures
            final(self).wf(),
            res is Ok <==> is_grid(
                rows(weights@),
                old(self)@.setup.size(),
                old(self)@.options.len() as int,
            ),
            res is Ok ==> final(self)@ == (StatfeedView {
                setup: (Setup { weights: rows(weights@), ..old(self)@.setup }),
                ..old(self)@
            }),
            res matches Err(e) ==> e == StatfeedError::InvalidConfiguration && final(self)@ == old(
                self,
            )@,
    {
        if !has_shape(&weights, self.accents.len(), self.options.len()) {
            return Err(StatfeedError::InvalidConfiguration);
        }
        self.weights = weights;
        Ok(())
    }

    /// Replaces the perturbations. Fails, and changes nothing, unless
    /// `randoms` holds one row per decision and in each row one entry per
    /// option.
    pub fn set_randoms(&mut self, randoms: Vec<Vec<i64>>) -> (res: Result<(), StatfeedError>)
        requires
            old(self).wf(),
        ensures
            final(self).wf(),
            res is Ok <==> is_grid(
                rows(randoms@),
                old(self)@.setup.size(),
                old(self)@.options.len() as int,
            ),
            res is Ok ==> final(self)@ == (StatfeedView {
                setup: (Setup { randoms: rows(randoms@), ..old(self)@.setup }),
                ..old(self)@
            }),
            res matches Err(e) ==> e == StatfeedError::InvalidConfiguration && final(self)@ == old(
                self,
            )@,
    {
        if !has_shape(&randoms, self.accents.len(), self.options.len()) {
            return Err(StatfeedError::InvalidConfiguration);
        }
        self.randoms = randoms;
        Ok(())
    }

    /// Replaces the acceptability flags. Fails, and changes nothing, unless
    /// `acceptable` holds one row per decision and in each row one entry per
    /// option.
    pub fn set_acceptable(&mut self, acceptable: Vec<Vec<bool>>) -> (res: Result<
        (),
        StatfeedError,
    >)
        requires
            old(self).wf(),
        ensures
            final(self).wf(),
            res is Ok <==> is_grid(
                rows(acceptable@),
                old(self)@.setup.size(),
                old(self)@.options.len() as int,
            ),
            res is Ok ==> final(self)@ == (StatfeedView {
                setup: (Setup { acceptable: rows(acceptable@), ..old(self)@.setup }),
                ..old(self)@
            }),
            res matches Err(e) ==> e == StatfeedError::InvalidConfiguration && final(self)@ == old(
                self,
            )@,
    {
        if !has_shape(&acceptable, self.accents.len(), self.options.len()) {
            return Err(StatfeedError::InvalidConfiguration);
        }
        self.acceptable = acceptable;
        Ok(())
    }

    /// Replaces the heterogeneities. Fails, and changes nothing, unless
    /// there is one per decision.
    pub fn set_heterogeneities(&mut self, heterogeneities: Vec<i64>) -> (res: Result<
        (),
        StatfeedError,
    >)
        requires
            old(self).wf(),
        ensures
            final(self).wf(),
            res is Ok <==> heterogeneities@.len() == old(self)@.setup.size(),
            res is Ok ==> final(self)@ == (StatfeedView {
                setup: (Setup { heterogeneities: heterogeneities@, ..old(self)@.setup }),
                ..old(self)@
            }),
            res matches Err(e) ==> e == StatfeedError::InvalidConfiguration && final(self)@ == old(
                self,
            )@,
    {
        if heterogeneities.len() != self.accents.len() {
            return Err(StatfeedError::InvalidConfiguration);
        }
        self.heterogeneities = heterogeneities;
        Ok(())
    }

    /// Replaces the accents. Fails, and changes nothing, unless there is one
    /// per decision.
    pub fn set_accents(&mut self, accents: Vec<i64>) -> (res: Result<(), StatfeedError>)
        requires
            old(self).wf(),
        ensures
            final(self).wf(),
            res is Ok <==> accents@.len() == old(self)@.setup.size(),
            res is Ok ==> final(self)@ == (StatfeedView {
                setup: (Setup { accents: accents@, ..old(self)@.setup }),
                ..old(self)@
            }),
            res matches Err(e) ==> e == StatfeedError::InvalidConfiguration && final(self)@ == old(
                self,
            )@,
    {
        if accents.len() != self.accents.len() {
            return Err(StatfeedError::InvalidConfiguration);
        }
        self.accents = accents;
        Ok(())
    }
}

} // verus!
