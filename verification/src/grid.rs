//! Rows and matrices: one row per decision, one entry per option.

use vstd::prelude::*;

verus! {

/// A matrix as a sequence of rows.
pub open spec fn rows<X>(grid: Seq<Vec<X>>) -> Seq<Seq<X>> {
    grid.map_values(|row: Vec<X>| row@)
}

/// Whether a matrix has `size` rows of `n` entries each.
pub open spec fn is_grid<X>(grid: Seq<Seq<X>>, size: int, n: int) -> bool {
    &&& grid.len() == size
    &&& forall|d: int| 0 <= d < size ==> (#[trigger] grid[d]).len() == n
}

/// The matrix of `size` rows of `n` entries that holds `value` everywhere.
pub open spec fn constant_grid<X>(value: X, size: int, n: int) -> Seq<Seq<X>> {
    Seq::new(size as nat, |d: int| Seq::new(n as nat, |o: int| value))
}

/// Decides [`is_grid`].
pub fn has_shape<X>(grid: &Vec<Vec<X>>, size: usize, n: usize) -> (b: bool)
    ensures
        b == is_grid(rows(grid@), size as int, n as int),
{
    if grid.len() != size {
        return false;
    }
    let mut d: usize = 0;
    while d < size
        invariant
            grid@.len() == size,
            d <= size,
            forall|e: int| 0 <= e < d ==> (#[trigger] rows(grid@)[e]).len() == n,
        decreases size - d,
    {
        if grid[d].len() != n {
            assert(rows(grid@)[d as int].len() != n);
            return false;
        }
        d = d + 1;
    }
    true
}

/// A row of `n` entries that holds `value` everywhere.
pub fn filled<X: Copy>(value: X, n: usize) -> (row: Vec<X>)
    ensures
        row@ == Seq::new(n as nat, |o: int| value),
{
    let mut row: Vec<X> = Vec::new();
    while row.len() < n
        invariant
            row@.len() <= n,
            forall|o: int| 0 <= o < row@.len() ==> row@[o] == value,
        decreases n - row@.len(),
    {
        row.push(value);
    }
    assert(row@ =~= Seq::new(n as nat, |o: int| value));
    row
}

/// A matrix of `size` rows of `n` entries that holds `value` everywhere.
pub fn filled_rows<X: Copy>(value: X, size: usize, n: usize) -> (grid: Vec<Vec<X>>)
    ensures
        rows(grid@) == constant_grid(value, size as int, n as int),
{
    let mut grid: Vec<Vec<X>> = Vec::new();
    while grid.len() < size
        invariant
            grid@.len() <= size,
            forall|d: int|
                0 <= d < grid@.len() ==> (#[trigger] grid@[d])@ == Seq::new(n as nat, |o: int| value),
        decreases size - grid@.len(),
    {
        let row = filled(value, n);
        grid.push(row);
    }
    assert(rows(grid@) =~= constant_grid(value, size as int, n as int));
    grid
}

} // verus!
