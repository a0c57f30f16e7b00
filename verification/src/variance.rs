//! Rows without variance.
//!
//! Standardisation divides every row by its standard deviation, which is
//! zero exactly when all cells of the row are equal. On the whole numbers
//! of the co-occurrence matrix that is decided exactly, before any division.

use vstd::prelude::*;
use crate::cooccurrence::CoOccurrenceMatrix;
use crate::error::EmbeddingError;

verus! {

/// Whether all cells of a row are equal.
pub open spec fn row_is_constant(row: Seq<u64>) -> bool {
    forall|j: int| 0 <= j < row.len() ==> #[trigger] row[j] == row[0]
}

/// The sum of the first `n` cells of a row.
pub open spec fn row_sum(row: Seq<u64>, n: nat) -> int
    decreases n,
{
    if n == 0 {
        0
    } else {
        row_sum(row, (n - 1) as nat) + row[n - 1]
    }
}

/// The distance of cell `j` from the mean of its row, times the length of
/// the row.
pub open spec fn scaled_deviation(row: Seq<u64>, j: int) -> int {
    row.len() * row[j] - row_sum(row, row.len())
}

/// The sum of the squares of the first `n` scaled deviations.
pub open spec fn squared_deviations(row: Seq<u64>, n: nat) -> int
    decreases n,
{
    if n == 0 {
        0
    } else {
        squared_deviations(row, (n - 1) as nat) + scaled_deviation(row, n - 1) * scaled_deviation(
            row,
            n - 1,
        )
    }
}

/// The population variance of a row, times the cube of its length.
pub open spec fn scaled_variance(row: Seq<u64>) -> int {
    squared_deviations(row, row.len())
}

/// Whether row `i` is constant and no row before it is.
pub open spec fn is_first_constant_row(cells: Seq<Vec<u64>>, i: int) -> bool {
    &&& 0 <= i < cells.len()
    &&& row_is_constant(cells[i]@)
    &&& forall|k: int| 0 <= k < i ==> !row_is_constant(#[trigger] cells[k]@)
}

/// Whether no row of the matrix is constant.
pub open spec fn all_rows_vary(cells: Seq<Vec<u64>>) -> bool {
    forall|k: int| 0 <= k < cells.len() ==> !row_is_constant(#[trigger] cells[k]@)
}

/// The first `n` cells of a constant row sum to `n` times its first cell.
proof fn lemma_constant_row_sum(row: Seq<u64>, n: nat)
    requires
        row_is_constant(row),
        n <= row.len(),
    ensures
        row_sum(row, n) == n * row[0],
    decreases n,
{
    if n > 0 {
        lemma_constant_row_sum(row, (n - 1) as nat);
        assert(row[n - 1] == row[0]);
        assert((n - 1) * row[0] + row[0] == n * row[0]) by (nonlinear_arith);
    } else {
        assert(0 * row[0] == 0) by (nonlinear_arith);
    }
}

/// A sum of squares is not negative, and where it is zero so is each term.
proof fn lemma_squared_deviations_zero(row: Seq<u64>, n: nat)
    ensures
        squared_deviations(row, n) >= 0,
        squared_deviations(row, n) == 0 ==> forall|j: int|
            0 <= j < n ==> #[trigger] scaled_deviation(row, j) == 0,
        (forall|j: int| 0 <= j < n ==> #[trigger] scaled_deviation(row, j) == 0)
            ==> squared_deviations(row, n) == 0,
    decreases n,
{
    if n > 0 {
        lemma_squared_deviations_zero(row, (n - 1) as nat);
        let d = scaled_deviation(row, n - 1);
        assert(d * d >= 0 && (d * d == 0 ==> d == 0) && (d == 0 ==> d * d == 0))
            by (nonlinear_arith);
    }
}

/// A row has zero variance exactly when all its cells are equal.
pub proof fn lemma_zero_variance_iff_constant(row: Seq<u64>)
    ensures
        scaled_variance(row) == 0 <==> row_is_constant(row),
{
    let n = row.len();
    lemma_squared_deviations_zero(row, n);
    if row_is_constant(row) {
        lemma_constant_row_sum(row, n);
        assert forall|j: int| 0 <= j < n implies #[trigger] scaled_deviation(row, j) == 0 by {
            assert(row[j] == row[0]);
        }
    }
    if scaled_variance(row) == 0 {
        assert forall|j: int| 0 <= j < n implies #[trigger] row[j] == row[0] by {
            assert(scaled_deviation(row, j) == 0);
            assert(scaled_deviation(row, 0) == 0);
            assert(row[j] == row[0]) by (nonlinear_arith)
                requires
                    n * row[j] == n * row[0],
                    n >= 1,
            ;
        }
    }
}

/// Whether all cells of the row are equal.
pub fn row_has_no_variance(row: &Vec<u64>) -> (constant: bool)
    ensures
        constant == row_is_constant(row@),
{
    let mut j: usize = 1;
    while j < row.len()
        invariant
            1 <= j,
            forall|k: int| 0 <= k < j && k < row@.len() ==> #[trigger] row@[k] == row@[0],
        decreases row@.len() - j,
    {
        if row[j] != row[0] {
            return false;
        }
        j = j + 1;
    }
    true
}

/// The first row without variance, if there is one.
pub fn first_constant_row(matrix: &CoOccurrenceMatrix) -> (found: Option<usize>)
    ensures
        match found {
            Some(i) => is_first_constant_row(matrix.cells@, i as int),
            None => all_rows_vary(matrix.cells@),
        },
{
    let mut i: usize = 0;
    while i < matrix.cells.len()
        invariant
            i <= matrix.cells@.len(),
            forall|k: int| 0 <= k < i ==> !row_is_constant(#[trigger] matrix.cells@[k]@),
        decreases matrix.cells@.len() - i,
    {
        if row_has_no_variance(&matrix.cells[i]) {
            return Some(i);
        }
        i = i + 1;
    }
    None
}

/// Accepts a matrix for standardisation: every row must have a variance
/// other than zero, or the division by the standard deviation is undefined.
pub fn check_rows_vary(matrix: &CoOccurrenceMatrix) -> (result: Result<(), EmbeddingError>)
    ensures
        result is Ok <==> all_rows_vary(matrix.cells@),
        result is Err ==> result == Err::<(), EmbeddingError>(EmbeddingError::NumericInstability),
{
    match first_constant_row(matrix) {
        Some(_) => Err(EmbeddingError::NumericInstability),
        None => Ok(()),
    }
}

} // verus!
