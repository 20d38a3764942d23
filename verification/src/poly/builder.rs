//! A fluent builder collecting monomials into a polynomial.

use crate::poly::mono::{MonoModel, Monomial};
use crate::poly::Polynomial;
use vstd::prelude::*;

verus! {

/// Collects monomials one at a time; `build` turns them into a
/// polynomial in insertion order.
pub struct Builder {
    monomials: Vec<Monomial>,
}

impl View for Builder {
    type V = Seq<MonoModel>;

    closed spec fn view(&self) -> Seq<MonoModel> {
        self.monomials@.map_values(|m: Monomial| m@)
    }
}

impl Builder {
    /// Append one monomial, returning the builder for chaining.
    pub fn monomial(self, monomial: Monomial) -> (r: Self)
        ensures
            r@ == self@.push(monomial@),
    {
        let mut b = self;
        b.push(monomial);
        b
    }

    /// Append one monomial.
    pub fn push(&mut self, monomial: Monomial)
        ensures
            final(self)@ == old(self)@.push(monomial@),
    {
        let ghost prev = self@;
        self.monomials.push(monomial);
        proof {
            assert(self@ =~= prev.push(monomial@));
        }
    }

    /// The collected monomials as a polynomial, in insertion order.
    pub fn build(self) -> (r: Polynomial)
        ensures
            r@ == self@,
    {
        Polynomial::new(self.monomials)
    }
}

impl Default for Builder {
    /// A builder holding no monomials yet.
    fn default() -> (r: Self)
        ensures
            r@ == Seq::<MonoModel>::empty(),
    {
        let b = Self { monomials: Vec::new() };
        proof {
            assert(b@ =~= Seq::<MonoModel>::empty());
        }
        b
    }
}

} // verus!
