//! Terms: the monomial value type used by the term-algebra surface.
//! A term carries the same data as a `Monomial` and shares its
//! mathematical model.

use crate::poly::mono::{
    div_fits, div_model, gcd_model, identity, mono_divides, mul_fits, mul_model, MonoModel, VARS,
};
use crate::poly::num::{abs, divq, gcd_nat};
use crate::render::{dec_str, int_str, letter_char, letter_str, render_i64, render_u64};
use vstd::prelude::*;
use vstd::string::StringExecFns;

verus! {

/// A coefficient with one exponent per variable slot.
#[derive(Clone, Copy, Debug, PartialEq, Eq)]
pub struct Term {
    pub coefficient: i64,
    pub exponents: [u16; VARS],
}

impl View for Term {
    type V = MonoModel;

    open spec fn view(&self) -> MonoModel {
        MonoModel {
            coef: self.coefficient as int,
            exps: Seq::new(VARS as nat, |i: int| self.exponents@[i] as int),
        }
    }
}

impl Term {
    pub fn new(coefficient: i64, exponents: [u16; VARS]) -> (r: Self)
        ensures
            r@.coef == coefficient as int,
            r@.exps == Seq::new(VARS as nat, |i: int| exponents@[i] as int),
    {
        Self { coefficient, exponents }
    }

    /// Compute the greatest common divisor of this and another term.
    pub fn gcd(self, rhs: Self) -> (r: Self)
        requires
            gcd_nat(abs(self@.coef), abs(rhs@.coef)) <= i64::MAX as nat,
        ensures
            r@ == gcd_model(self@, rhs@),
    {
        let c = crate::poly::num::gcd(self.coefficient, rhs.coefficient);
        let mut e = self.exponents;
        let mut k: usize = 0;
        #[verifier::loop_isolation(false)]
        while k < VARS
            invariant
                k <= VARS,
                forall|j: int| 0 <= j < k ==> e@[j] as int == gcd_model(self@, rhs@).exps[j],
                forall|j: int| k <= j < VARS ==> e@[j] == self.exponents@[j],
            decreases VARS - k,
        {
            if rhs.exponents[k] < e[k] {
                e[k] = rhs.exponents[k];
            }
            k += 1;
        }
        let r = Self { coefficient: c, exponents: e };
        proof {
            assert(r@.exps =~= gcd_model(self@, rhs@).exps);
        }
        r
    }

    /// Multiply this term by another in place.
    pub fn mul_assign(&mut self, rhs: Self)
        requires
            mul_fits(old(self)@, rhs@),
        ensures
            final(self)@ == mul_model(old(self)@, rhs@),
    {
        self.coefficient = self.coefficient * rhs.coefficient;
        let mut k: usize = 0;
        #[verifier::loop_isolation(false)]
        while k < VARS
            invariant
                k <= VARS,
                self.coefficient == old(self).coefficient * rhs.coefficient,
                forall|j: int|
                    0 <= j < k ==> self.exponents@[j] as int == mul_model(old(self)@, rhs@).exps[j],
                forall|j: int| k <= j < VARS ==> self.exponents@[j] == old(self).exponents@[j],
            decreases VARS - k,
        {
            proof {
                assert(self.exponents@[k as int] as int == old(self)@.exps[k as int]);
                assert(rhs.exponents@[k as int] as int == rhs@.exps[k as int]);
            }
            self.exponents[k] = self.exponents[k] + rhs.exponents[k];
            k += 1;
        }
        proof {
            assert(self@.exps =~= mul_model(old(self)@, rhs@).exps);
        }
    }

    /// Product of this term and another.
    pub fn mul(self, rhs: Self) -> (r: Self)
        requires
            mul_fits(self@, rhs@),
        ensures
            r@ == mul_model(self@, rhs@),
    {
        let mut r = self;
        r.mul_assign(rhs);
        r
    }

    /// Divide this term exactly by another in place.  The divisor must
    /// divide this term, as a prior `gcd` step guarantees.
    pub fn div_assign(&mut self, rhs: Self)
        requires
            rhs@.coef != 0,
            mono_divides(rhs@, old(self)@),
            div_fits(old(self)@, rhs@),
        ensures
            final(self)@ == div_model(old(self)@, rhs@),
            final(self)@.coef * rhs@.coef == old(self)@.coef,
    {
        proof {
            crate::poly::num::lemma_divq_exact(old(self)@.coef, rhs@.coef);
        }
        self.coefficient = crate::poly::num::divide(self.coefficient, rhs.coefficient);
        let mut k: usize = 0;
        #[verifier::loop_isolation(false)]
        while k < VARS
            invariant
                k <= VARS,
                self.coefficient as int == divq(old(self)@.coef, rhs@.coef),
                forall|j: int|
                    0 <= j < k ==> self.exponents@[j] as int == div_model(old(self)@, rhs@).exps[j],
                forall|j: int| k <= j < VARS ==> self.exponents@[j] == old(self).exponents@[j],
            decreases VARS - k,
        {
            proof {
                assert(self.exponents@[k as int] as int == old(self)@.exps[k as int]);
                assert(rhs.exponents@[k as int] as int == rhs@.exps[k as int]);
            }
            self.exponents[k] = self.exponents[k] - rhs.exponents[k];
            k += 1;
        }
        proof {
            assert(self@.exps =~= div_model(old(self)@, rhs@).exps);
        }
    }


    /// The textual notation of this term.
    pub fn render(&self) -> (r: String)
        ensures
            r@ == term_str(self@),
    {
        proof {
            reveal_strlit("^");
        }
        let mut out = render_i64(self.coefficient);
        let mut i: usize = 0;
        #[verifier::loop_isolation(false)]
        loop
            invariant
                i <= VARS,
                out@ + term_vars_str(self@, i as int) == term_str(self@),
            decreases VARS - i,
        {
            if i == VARS {
                proof {
                    assert(out@ + term_vars_str(self@, i as int) =~= out@);
                }
                return out;
            }
            let ghost before = out@;
            let e = self.exponents[i];
            proof {
                assert(self.exponents@[i as int] as int == self@.exps[i as int]);
            }
            if e != 0 {
                out.append(letter_str(i));
                out.append("^");
                let ds = render_u64(e as u64);
                out.append(ds.as_str());
            }
            proof {
                assert(out@ + term_vars_str(self@, i + 1) =~= before + term_vars_str(
                    self@,
                    i as int,
                ));
            }
            i = i + 1;
        }
    }

    /// Product of a sequence of terms; the empty product is the identity.
    pub fn product(terms: &Vec<Term>) -> (r: Self)
        requires
            product_fits(terms@.map_values(|t: Term| t@), terms@.len() as int),
        ensures
            r@ == product_model(terms@.map_values(|t: Term| t@), terms@.len() as int),
    {
        let models = Ghost(terms@.map_values(|t: Term| t@));
        let mut acc = Term { coefficient: 1, exponents: [0; VARS] };
        proof {
            assert(acc@.exps =~= identity().exps);
            assert(acc@ == product_model(models@, 0));
        }
        let mut k: usize = 0;
        #[verifier::loop_isolation(false)]
        while k < terms.len()
            invariant
                k <= terms@.len(),
                acc@ == product_model(models@, k as int),
            decreases terms@.len() - k,
        {
            proof {
                assert(product_prefix_fits(models@, k + 1));
                assert(models@[k as int] == terms@[k as int]@);
                assert(forall|i: int|
                    0 <= i < VARS ==> #[trigger] acc@.exps[i] + terms@[k as int]@.exps[i]
                        == product_model(models@, k + 1).exps[i]);
            }
            acc.mul_assign(terms[k]);
            k += 1;
        }
        acc
    }
}

/// Product of the first `n` term values; the empty product is the identity.
pub open spec fn product_model(s: Seq<MonoModel>, n: int) -> MonoModel
    decreases n,
{
    if n <= 0 {
        identity()
    } else {
        mul_model(product_model(s, n - 1), s[n - 1])
    }
}

/// The product of the first `n` term values stays within the machine
/// bounds of a term.
pub open spec fn product_prefix_fits(s: Seq<MonoModel>, n: int) -> bool {
    &&& i64::MIN <= product_model(s, n).coef <= i64::MAX
    &&& forall|i: int| 0 <= i < VARS ==> 0 <= #[trigger] product_model(s, n).exps[i] <= u16::MAX
}

/// Every prefix product up to `n` stays within the machine bounds.
pub open spec fn product_fits(s: Seq<MonoModel>, n: int) -> bool {
    forall|i: int| 0 <= i <= n ==> #[trigger] product_prefix_fits(s, i)
}


/// The text of the variable factors of a term from slot `i` on: the
/// letter of each slot with a nonzero exponent, always followed by
/// `^` and the exponent.
pub open spec fn term_vars_str(m: MonoModel, i: int) -> Seq<char>
    decreases VARS - i,
{
    if i < 0 || i >= VARS {
        Seq::empty()
    } else {
        (if m.exps[i] != 0 {
            seq![letter_char(i)] + seq!['^'] + dec_str(m.exps[i] as nat)
        } else {
            Seq::empty()
        }) + term_vars_str(m, i + 1)
    }
}

/// The text of a term: its coefficient, then its variable factors.
pub open spec fn term_str(m: MonoModel) -> Seq<char> {
    int_str(m.coef) + term_vars_str(m, 0)
}

impl Default for Term {
    /// The identity term.
    fn default() -> (r: Self)
        ensures
            r@ == identity(),
    {
        let r = Self { coefficient: 1, exponents: [0; VARS] };
        proof {
            assert(r@.exps =~= identity().exps);
        }
        r
    }
}

} // verus!
