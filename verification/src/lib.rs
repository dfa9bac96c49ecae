//! Exact polynomial interpolation over the rational numbers.
//!
//! A [`MonomialPolynomial`] is evaluated from its coefficients; a
//! [`LagrangeInterpolant`] and a [`NewtonInterpolant`] are built from sample
//! points and evaluated in barycentric and in divided-difference form. All
//! arithmetic is exact: coordinates are [`Rational`] numbers, and every
//! function is specified over the real numbers that they denote.

pub mod agreement;

pub mod error;
pub mod integer;
pub mod interpolant;
pub mod lagrange;
pub mod laws;
pub mod monomial;
pub mod natural;
pub mod newton;
pub mod point;
pub mod polynomial;
pub mod rational;

pub use crate::agreement::count_misses;
pub use crate::error::InterpolationError;
pub use crate::integer::Integer;
pub use crate::lagrange::LagrangeInterpolant;
pub use crate::monomial::MonomialPolynomial;
pub use crate::natural::Natural;
pub use crate::newton::NewtonInterpolant;
pub use crate::point::{have_distinct_abscissas, Point};
pub use crate::rational::Rational;
