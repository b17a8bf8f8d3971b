//! Where the default perturbations come from.

use vstd::prelude::*;
use crate::fixed::SCALE;

verus! {

/// Draws one number from the thread's generator of the `rand` crate:
/// `rand::thread_rng()`, and on it `rand::Rng::gen_range` with the range from
/// zero up to and excluding `bound`.
///
/// Believed, not proved: that the number drawn lies in that range. Nothing is
/// claimed of which number comes. `gen_range` panics on an empty range, which
/// the precondition rules out; `thread_rng` panics where the system gives the
/// generator no seed, whatever the argument.
#[verifier::external_body]
fn random_below(bound: i64) -> (r: i64)
    requires
        0 < bound,
    ensures
        0 <= r < bound,
{
    rand::Rng::gen_range(&mut rand::thread_rng(), 0..bound)
}

/// Whether every entry of a row of perturbations is at least zero and less
/// than one.
pub open spec fn is_unit_row(row: Seq<i64>) -> bool {
    forall|o: int| 0 <= o < row.len() ==> 0 <= #[trigger] row[o] < SCALE
}

/// A row of `n` perturbations, each drawn from zero up to, and excluding, one.
pub fn random_row(n: usize) -> (row: Vec<i64>)
    ensures
        row@.len() == n,
        is_unit_row(row@),
{
    let mut row: Vec<i64> = Vec::new();
    while row.len() < n
        invariant
            row@.len() <= n,
            is_unit_row(row@),
        decreases n - row@.len(),
    {
        let r: i64 = random_below(SCALE);
        row.push(r);
    }
    row
}

/// One row of `n` perturbations for each of `size` decisions.
pub fn random_rows(size: usize, n: usize) -> (rows: Vec<Vec<i64>>)
    ensures
        rows@.len() == size,
        forall|d: int| 0 <= d < size ==> (#[trigger] rows@[d])@.len() == n && is_unit_row(rows@[d]@),
{
    let mut rows: Vec<Vec<i64>> = Vec::new();
    while rows.len() < size
        invariant
            rows@.len() <= size,
            forall|d: int|
                0 <= d < rows@.len() ==> (#[trigger] rows@[d])@.len() == n && is_unit_row(rows@[d]@),
        decreases size - rows@.len(),
    {
        let row = random_row(n);
        rows.push(row);
    }
    rows
}

} // verus!
