//! Index, permutation and sizing logic of a divide-and-conquer SVD solver for
//! real bidiagonal matrices.
//!
//! The floating-point kernels (rotations, the secular equation, the implicit
//! QR sweep) work on values that the modules here never touch; what they
//! decide with integers (which kernel to run, where to split, how columns are
//! permuted and reordered, how much scratch memory is needed) is stated and
//! proved here. Where a decision compares real values, it takes order keys:
//! non-negative reals compare as their keys do.
pub mod deflation;
pub mod merge;
pub mod perm;
pub mod qr;
pub mod req;
pub mod routing;

pub use req::{bidiag_real_svd_req, ScratchReq, SizeOverflow};
pub use routing::{select_path, split_sizes, SolverPath};
