//! What holds of every run, whatever the configuration.

use vstd::prelude::*;
use vstd::arithmetic::div_mod::{
    lemma_div_is_ordered, lemma_div_is_ordered_by_denominator, lemma_fundamental_div_mod,
};
use crate::error::StatfeedError;
use crate::fixed::{SCALE, lemma_quotient_bounds, quotient};
use crate::model::{Setup, expected_cost, lemma_pick_exists, lemma_run_shape};
use crate::selector::StatfeedView;

verus! {

/// A run is a function of the options, the configuration and the statistics
/// it starts from: two selectors that agree on these end with the same
/// result, the same choices and the same statistics, whatever either chose
/// before.
pub proof fn lemma_populate_deterministic<T>(
    a: StatfeedView<T>,
    b: StatfeedView<T>,
    after_a: StatfeedView<T>,
    after_b: StatfeedView<T>,
    res_a: Result<(), StatfeedError>,
    res_b: Result<(), StatfeedError>,
)
    requires
        a.options == b.options,
        a.setup.weights == b.setup.weights,
        a.setup.randoms == b.setup.randoms,
        a.setup.heterogeneities == b.setup.heterogeneities,
        a.setup.accents == b.setup.accents,
        a.setup.acceptable == b.setup.acceptable,
        a.statistics == b.statistics,
        a.populated(after_a, res_a),
        b.populated(after_b, res_b),
    ensures
        res_a == res_b,
        res_a is Ok ==> after_a.picks == after_b.picks,
        after_a.statistics == after_b.statistics,
        after_a.options == after_b.options,
        after_a.setup == after_b.setup,
{
    assert(a.setup == b.setup);
    if let Ok(done_a) = res_a {
        if let Ok(done_b) = res_b {
            assert(done_a == done_b);
        }
    }
}

/// A run that succeeds leaves one choice per decision, and a run of no
/// decisions succeeds, leaves no choice and leaves the statistics alone.
pub proof fn lemma_populate_length<T>(
    before: StatfeedView<T>,
    after: StatfeedView<T>,
    res: Result<(), StatfeedError>,
)
    requires
        before.setup.well_formed(before.statistics.len() as int),
        before.populated(after, res),
    ensures
        res is Ok ==> after.picks.len() == before.setup.size(),
        before.setup.size() == 0 ==> res is Ok && after.statistics == before.statistics,
{
    lemma_run_shape(before.setup, before.statistics, before.setup.size() as nat);
}

/// No run chooses, at any decision, an option whose weight is zero there or
/// that is not acceptable there.
pub proof fn lemma_populate_excludes_zero_weight<T>(
    before: StatfeedView<T>,
    after: StatfeedView<T>,
    res: Result<(), StatfeedError>,
    d: int,
)
    requires
        before.setup.well_formed(before.statistics.len() as int),
        before.populated(after, res),
        res is Ok,
        0 <= d < before.setup.size(),
    ensures
        0 <= after.picks[d] < before.statistics.len(),
        before.setup.weights[d][after.picks[d]] > 0,
        before.setup.acceptable[d][after.picks[d]],
{
    lemma_run_shape(before.setup, before.statistics, before.setup.size() as nat);
    assert(before.setup.eligible(d, after.picks[d]));
}

/// With a numerator that is not negative, a heavier weight never makes for a
/// greater charge.
pub proof fn lemma_charge_falls_with_weight(
    accent: i64,
    heterogeneity: i64,
    random: i64,
    lighter: u64,
    heavier: u64,
)
    requires
        0 < lighter < heavier,
        accent * SCALE + heterogeneity * random >= 0,
    ensures
        expected_cost(accent, heterogeneity, random, heavier) <= expected_cost(
            accent,
            heterogeneity,
            random,
            lighter,
        ),
{
    lemma_div_is_ordered_by_denominator(
        accent * SCALE + heterogeneity * random,
        lighter as int,
        heavier as int,
    );
}

/// A heavier weight makes for a strictly smaller charge exactly when the
/// numerator falls short of the heavier weight times the charge at the
/// lighter weight: rounding down can hide a difference of less than a unit.
pub proof fn lemma_charge_falls_strictly_when(
    accent: i64,
    heterogeneity: i64,
    random: i64,
    lighter: u64,
    heavier: u64,
)
    requires
        0 < lighter < heavier,
    ensures
        expected_cost(accent, heterogeneity, random, heavier) < expected_cost(
            accent,
            heterogeneity,
            random,
            lighter,
        ) <==> accent * SCALE + heterogeneity * random < expected_cost(
            accent,
            heterogeneity,
            random,
            lighter,
        ) * heavier,
{
    let n = accent * SCALE + heterogeneity * random;
    let v = heavier as int;
    let p = n / (lighter as int);
    let q = n / v;
    let t = n % v;
    lemma_fundamental_div_mod(n, v);
    assert(q < p <==> n < p * v) by (nonlinear_arith)
        requires
            n == v * q + t,
            0 <= t < v,
    ;
}

/// With a numerator so large that the exact quotients by the two weights lie
/// at least one unit apart, a heavier weight makes for a strictly smaller
/// charge.
pub proof fn lemma_charge_falls_strictly_with_weight(
    accent: i64,
    heterogeneity: i64,
    random: i64,
    lighter: u64,
    heavier: u64,
)
    requires
        0 < lighter < heavier,
        (accent * SCALE + heterogeneity * random) * (heavier - lighter) >= lighter * heavier,
    ensures
        expected_cost(accent, heterogeneity, random, heavier) < expected_cost(
            accent,
            heterogeneity,
            random,
            lighter,
        ),
{
    let n = accent * SCALE + heterogeneity * random;
    let w = lighter as int;
    let v = heavier as int;
    let p = n / w;
    let r = n % w;
    lemma_fundamental_div_mod(n, w);
    lemma_charge_falls_strictly_when(accent, heterogeneity, random, lighter, heavier);
    assert(n < p * v) by (nonlinear_arith)
        requires
            n == w * p + r,
            0 <= r < w,
            0 < w < v,
            n * (v - w) >= w * v,
    ;
}

/// Raising the weight of one option at one decision, all else being equal,
/// never lets another option overtake it: where it was tried no later than
/// the other, it still is.
pub proof fn lemma_heavier_keeps_rank(
    setup: Setup,
    raised: Setup,
    statistics: Seq<int>,
    d: int,
    o: int,
    p: int,
)
    requires
        setup.well_formed(statistics.len() as int),
        0 <= d < setup.size(),
        0 <= o < statistics.len(),
        0 <= p < statistics.len(),
        o != p,
        0 < setup.weights[d][o] < raised.weights[d][o],
        raised == (Setup {
            weights: setup.weights.update(d, setup.weights[d].update(o, raised.weights[d][o])),
            ..setup
        }),
        setup.accents[d] * SCALE + setup.heterogeneities[d] * setup.randoms[d][o] >= 0,
        setup.outranks(statistics, d, o, p),
    ensures
        raised.value(statistics, d, o) <= setup.value(statistics, d, o),
        raised.value(statistics, d, p) == setup.value(statistics, d, p),
        raised.outranks(statistics, d, o, p),
{
    lemma_charge_falls_with_weight(
        setup.accents[d],
        setup.heterogeneities[d],
        setup.randoms[d][o],
        setup.weights[d][o],
        raised.weights[d][o],
    );
}

/// Whether no two statistics lie further apart than `bound`.
pub open spec fn spread_within(statistics: Seq<int>, bound: int) -> bool {
    forall|i: int, j: int|
        #![trigger statistics[i], statistics[j]]
        0 <= i < statistics.len() && 0 <= j < statistics.len() ==> statistics[i] - statistics[j]
            <= bound
}

/// How far apart one decision can drive two statistics that were level: the
/// greatest charge plus the greatest increment, for accents up to `accent`,
/// heterogeneities up to `heterogeneity` and weights from `weight` up.
pub open spec fn round_spread(accent: int, heterogeneity: int, weight: int) -> int {
    quotient((accent + heterogeneity) * SCALE, weight) + quotient(accent * SCALE, weight)
}

/// Whether decision `d` keeps within the given magnitudes: its accent and
/// heterogeneity are not negative and at most `accent` and `heterogeneity`,
/// and every option is acceptable, weighs at least `weight` and has a
/// perturbation from zero to one.
pub open spec fn is_tame(setup: Setup, d: int, accent: int, heterogeneity: int, weight: int) -> bool {
    &&& 0 <= setup.accents[d] <= accent
    &&& 0 <= setup.heterogeneities[d] <= heterogeneity
    &&& forall|o: int|
        0 <= o < setup.weights[d].len() ==> {
            &&& weight <= #[trigger] setup.weights[d][o]
            &&& setup.acceptable[d][o]
            &&& 0 <= setup.randoms[d][o] <= SCALE
        }
}

/// At a tame decision no charge and no increment is negative, and neither
/// exceeds its share of [`round_spread`].
proof fn lemma_tame_charges(
    setup: Setup,
    d: int,
    o: int,
    accent: int,
    heterogeneity: int,
    weight: int,
)
    requires
        weight >= 1,
        is_tame(setup, d, accent, heterogeneity, weight),
        0 <= o < setup.weights[d].len(),
    ensures
        0 <= setup.expected(d, o) <= quotient((accent + heterogeneity) * SCALE, weight),
        0 <= setup.increment(d, o) <= quotient(accent * SCALE, weight),
{
    let a = setup.accents[d] as int;
    let h = setup.heterogeneities[d] as int;
    let r = setup.randoms[d][o] as int;
    let w = setup.weights[d][o] as int;
    let s = SCALE as int;
    assert(weight <= w);
    assert(0 <= a * s <= accent * s) by (nonlinear_arith)
        requires
            0 <= a <= accent,
            s > 0,
    ;
    assert(0 <= h * r <= heterogeneity * s) by (nonlinear_arith)
        requires
            0 <= h <= heterogeneity,
            0 <= r <= s,
    ;
    assert((accent + heterogeneity) * s == accent * s + heterogeneity * s) by (nonlinear_arith);
    let n = a * s + h * r;
    lemma_quotient_bounds(n, w);
    lemma_quotient_bounds(a * s, w);
    lemma_div_is_ordered_by_denominator(n, weight, w);
    lemma_div_is_ordered_by_denominator(a * s, weight, w);
    lemma_div_is_ordered(n, (accent + heterogeneity) * s, weight);
    lemma_div_is_ordered(a * s, accent * s, weight);
}

/// Settling a tame decision leaves the statistics no further apart than
/// they were, or than one decision can drive them.
proof fn lemma_step_spread(
    setup: Setup,
    statistics: Seq<int>,
    d: int,
    o: int,
    accent: int,
    heterogeneity: int,
    weight: int,
    bound: int,
)
    requires
        setup.well_formed(statistics.len() as int),
        0 <= d < setup.size(),
        weight >= 1,
        is_tame(setup, d, accent, heterogeneity, weight),
        setup.is_pick(statistics, d, o),
        spread_within(statistics, bound),
        bound >= round_spread(accent, heterogeneity, weight),
    ensures
        spread_within(setup.settled(statistics, d, o), bound),
{
    let after = setup.settled(statistics, d, o);
    let raised = setup.incremented(statistics, d, o);
    lemma_tame_charges(setup, d, o, accent, heterogeneity, weight);
    assert forall|i: int, j: int|
        0 <= i < after.len() && 0 <= j < after.len() implies #[trigger] after[i] - #[trigger] after[j]
        <= bound by {
        assert(weight <= setup.weights[d][i]);
        assert(weight <= setup.weights[d][j]);
        assert(after[i] == raised[i] - setup.normalization(d));
        assert(after[j] == raised[j] - setup.normalization(d));
        assert(statistics[i] - statistics[j] <= bound);
        if i == o && j != o {
            lemma_tame_charges(setup, d, j, accent, heterogeneity, weight);
            assert(setup.eligible(d, j));
            assert(setup.outranks(statistics, d, o, j));
        }
    }
}

/// Over tame decisions the statistics do not drift apart: a bound on their
/// spread before a run that is at least [`round_spread`] is a bound on their
/// spread after it, however many decisions the run has. From level
/// statistics the spread therefore never exceeds [`round_spread`], which
/// depends on the magnitudes of accent, heterogeneity and weight alone.
pub proof fn lemma_spread_stays_bounded(
    setup: Setup,
    statistics: Seq<int>,
    k: nat,
    accent: int,
    heterogeneity: int,
    weight: int,
    bound: int,
)
    requires
        setup.well_formed(statistics.len() as int),
        k <= setup.size(),
        weight >= 1,
        forall|d: int| 0 <= d < k ==> is_tame(setup, d, accent, heterogeneity, weight),
        spread_within(statistics, bound),
        bound >= round_spread(accent, heterogeneity, weight),
    ensures
        setup.run(statistics, k) matches Ok(outcome) ==> spread_within(outcome.statistics, bound),
    decreases k,
{
    if k > 0 {
        lemma_spread_stays_bounded(
            setup,
            statistics,
            (k - 1) as nat,
            accent,
            heterogeneity,
            weight,
            bound,
        );
        lemma_run_shape(setup, statistics, (k - 1) as nat);
        if let Ok(so_far) = setup.run(statistics, (k - 1) as nat) {
            lemma_pick_exists(setup, so_far.statistics, k - 1);
            if let Some(o) = setup.pick(so_far.statistics, k - 1) {
                lemma_step_spread(
                    setup,
                    so_far.statistics,
                    k - 1,
                    o,
                    accent,
                    heterogeneity,
                    weight,
                    bound,
                );
            }
        }
    }
}

} // verus!
