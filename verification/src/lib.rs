//! Exact rational arithmetic (`Fraction`) and complex arithmetic built on
//! top of it (`Complex`), together with the Euclidean gcd the reduction to
//! lowest terms rests on.

pub mod approx;
pub mod complex;
pub mod fraction;
pub mod gcd;
pub mod text;

pub use crate::complex::Complex;
pub use crate::fraction::DivByZeroError;
pub use crate::fraction::Fraction;
pub use crate::gcd::gcd;
pub use crate::gcd::get_ordering;
pub use crate::text::ParseFractionError;
