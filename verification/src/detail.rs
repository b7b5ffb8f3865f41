//! Fail-fast guard functions for sizes, bounds and emptiness.
//!
//! In this verified library the guards carry their condition as a
//! precondition: a verified caller can never reach the failing case, so the
//! bodies have nothing left to do at run time.

use vstd::prelude::*;

use crate::matrix::{spec_cols, Matrix};

verus! {

/// Guard that a matrix is square.
pub fn check_square(m: &Matrix)
    requires
        m@.len() == spec_cols(m@),
{
}

/// Guard that an index is valid: `begin <= pos < end`.
pub fn check_bounds(pos: usize, begin: usize, end: usize)
    requires
        begin <= pos < end,
{
}

/// Guard that a container is not empty.
pub fn check_empty(size: usize)
    requires
        size != 0,
{
}

/// Guard that two dimensions agree.
pub fn check_size(s1: usize, s2: usize)
    requires
        s1 == s2,
{
}

} // verus!
