//! A small symbolic toolkit for multivariate polynomials over
//! integer coefficients with a fixed set of variable identities:
//! parsing from a compact textual notation, monomial arithmetic,
//! like-term combination, and exact fraction simplification by a
//! shared monomial greatest common divisor.

mod frac;
pub mod parse;
pub mod poly;
pub mod render;

pub use frac::Fraction;
pub use poly::{Monomial, Monomials, Polynomial};

use vstd::prelude::*;

verus! {

/// A greatest common divisor shared by two values.
pub trait Gcd<Rhs> {
    type Output;

    /// When the divisor may be computed.
    spec fn gcd_req(&self, rhs: &Rhs) -> bool;

    /// What the computed divisor satisfies.
    spec fn gcd_ensures(&self, rhs: &Rhs, r: Self::Output) -> bool;

    /// Compute the greatest common divisor of this value and another.
    fn gcd(&self, rhs: &Rhs) -> (r: Self::Output)
        requires
            self.gcd_req(rhs),
        ensures
            self.gcd_ensures(rhs, r),
    ;
}

} // verus!
