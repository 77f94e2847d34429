use vstd::prelude::*;

verus! {

/// The kernel that solves a bidiagonal problem of a given size.
#[derive(Clone, Copy, Debug, PartialEq, Eq, Structural)]
pub enum SolverPath {
    /// One-sided Jacobi SVD on the square matrix.
    Jacobi,
    /// Implicit QR sweeps with a Wilkinson shift.
    BidiagQr,
    /// Recursive divide and conquer with a rank-one merge.
    DivideAndConquer,
}

/// The decision table of the entry point: the smallest problems go to
/// Jacobi, mid-sized ones to implicit QR, the rest to divide and conquer.
pub open spec fn path_for(n: nat, jacobi_threshold: nat, qr_threshold: nat) -> SolverPath {
    if n <= jacobi_threshold {
        SolverPath::Jacobi
    } else if n <= qr_threshold {
        SolverPath::BidiagQr
    } else {
        SolverPath::DivideAndConquer
    }
}

/// Picks the kernel for a problem with `n` columns.
pub fn select_path(
    n: usize,
    jacobi_fallback_threshold: usize,
    bidiag_qr_fallback_threshold: usize,
) -> (r: SolverPath)
    ensures
        r == path_for(n as nat, jacobi_fallback_threshold as nat, bidiag_qr_fallback_threshold as nat),
{
    if n <= jacobi_fallback_threshold {
        SolverPath::Jacobi
    } else if n <= bidiag_qr_fallback_threshold {
        SolverPath::BidiagQr
    } else {
        SolverPath::DivideAndConquer
    }
}

/// Splits a problem of `n` columns at `k = n / 2`: the left child has `k`
/// columns, the merge row takes column `k`, and the right child has the
/// remaining `n - 1 - k` columns. Returns `(k, rem)`; both children are
/// solved by Jacobi when either is at most the Jacobi threshold.
pub fn split_sizes(n: usize, jacobi_fallback_threshold: usize) -> (r: (usize, usize, bool))
    requires
        n >= 1,
    ensures
        r.0 == n / 2,
        r.0 + 1 + r.1 == n,
        r.1 <= r.0,
        r.0 <= r.1 + 1,
        r.2 == (r.0 <= jacobi_fallback_threshold || r.1 <= jacobi_fallback_threshold),
{
    let k: usize = n / 2;
    let rem: usize = n - 1 - k;
    (k, rem, k <= jacobi_fallback_threshold || rem <= jacobi_fallback_threshold)
}

} // verus!
