//! Minimum-weight assignment of rows to columns, computed by the
//! Kuhn-Munkres (Hungarian) algorithm of the `pathfinding` crate.
use vstd::prelude::*;
use pathfinding::kuhn_munkres::kuhn_munkres_min;
use pathfinding::matrix::Matrix;

verus! {

/// The column that the `pathfinding` crate's minimum-weight assignment
/// gives each row of the row-major weight matrix `weights`.
pub uninterp spec fn min_weight_assignment(rows: nat, columns: nat, weights: Seq<i32>) -> Seq<usize>;

/// Whether `a` assigns each of `rows` rows its own column below `columns`.
pub open spec fn is_assignment(rows: nat, columns: nat, a: Seq<usize>) -> bool {
    &&& a.len() == rows
    &&& forall|i: int| 0 <= i < rows ==> (#[trigger] a[i]) < columns
    &&& forall|i: int, j: int| 0 <= i < j < rows ==> (#[trigger] a[i]) != (#[trigger] a[j])
}

/// The total weight of the first `k` rows of an assignment.
pub open spec fn assignment_weight(columns: nat, weights: Seq<i32>, a: Seq<usize>, k: int) -> int
    decreases k,
{
    if k <= 0 {
        0
    } else {
        assignment_weight(columns, weights, a, k - 1) + weights[(k - 1) * columns + a[k - 1]] as int
    }
}

/// Whether every weight is between zero and a bound small enough that the
/// algorithm's sums of labels stay within `i32`.
pub open spec fn weights_fit(rows: nat, columns: nat, weights: Seq<i32>) -> bool {
    forall|k: int| 0 <= k < weights.len() ==> 0 <= #[trigger] weights[k] && weights[k] * (rows + columns + 2) <= i32::MAX
}

/// Calls `pathfinding::kuhn_munkres::kuhn_munkres_min` on the matrix built by
/// `Matrix::from_vec(rows, columns, weights)` and returns its assignment.
///
/// Trusted: the result is the named assignment of these arguments; as the
/// crate documents, it gives every row its own column and has the least
/// total weight of all such assignments. The crate panics where there are
/// more rows than columns or where its sums of labels overflow, which
/// `requires` rules out.
#[verifier::external_body]
pub(crate) fn kuhn_munkres_assignment(rows: usize, columns: usize, weights: Vec<i32>) -> (r: Vec<usize>)
    requires
        0 < rows <= columns,
        weights@.len() == rows * columns,
        weights_fit(rows as nat, columns as nat, weights@),
    ensures
        r@ == min_weight_assignment(rows as nat, columns as nat, weights@),
        is_assignment(rows as nat, columns as nat, r@),
        forall|a: Seq<usize>| is_assignment(rows as nat, columns as nat, a) ==> assignment_weight(
            columns as nat,
            weights@,
            r@,
            rows as int,
        ) <= assignment_weight(columns as nat, weights@, a, rows as int),
{
    match Matrix::from_vec(rows, columns, weights) {
        Ok(matrix) => kuhn_munkres_min::<i32, Matrix<i32>>(&matrix).1,
        Err(_) => Vec::new(),
    }
}

} // verus!
