//! Exact linear algebra over rational scalars.
//!
//! Vectors and matrices hold exact fractions (reduced rationals with a
//! positive denominator) and support the classical elimination-based
//! algorithms: row echelon and reduced row echelon transforms, determinant,
//! rank, inverse, cofactor expansion and unpivoted LU decomposition.  Every
//! operation is specified against a mathematical model of rational
//! arithmetic and verified.

pub mod arith;
pub mod frac;
pub mod vector;
pub mod matrix;
pub mod detail;
pub mod reduce;
pub mod canonical;
pub mod cofactor;
pub mod lu;
pub mod laws;

pub use frac::Fraction;
pub use matrix::Matrix;
pub use vector::Vector;
