//! Exact algebra of univariate polynomials: rings, fields, division,
//! greatest common divisors and square-free factorization.

pub mod traits;
pub mod integer;
pub mod rational;
pub mod polynomial;
pub mod poly_ring;
pub mod ops;
pub mod euclid;
pub mod derivative;
pub mod divisibility;
pub mod factorization;
pub mod uniqueness;
pub mod poly_domain;
pub mod evaluation;
pub mod divisors;
pub mod interpolation;
pub mod print;
