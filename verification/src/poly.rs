//! Polynomials: ordered collections of monomials with a shared
//! greatest-common-divisor, like-term combination, and scaling.

pub mod builder;
pub mod combine;
pub mod frac;
pub mod mono;
pub mod num;
pub mod term;

pub use builder::Builder;
pub use combine::Combine;
pub use frac::Fraction;
pub use mono::{parse_int, parse_vars, Monomial, Monomials};
pub use num::gcd;
pub use term::Term;

use crate::poly::mono::{
    div_fits, div_model, gcd_model, identity, mono_divides, mul_fits, mul_model, MonoModel, VARS,
};
use crate::poly::mono::mono_str;
use crate::Gcd;
use crate::poly::num::{
    abs, gcd_nat, lemma_divides_refl, lemma_divides_trans, lemma_gcd_bound, lemma_gcd_divides,
    lemma_gcd_greatest,
};
use vstd::prelude::*;
use vstd::string::StringExecFns;

verus! {

/// An ordered collection of monomials, representing their sum.
#[derive(Clone, Debug, PartialEq)]
pub struct Polynomial {
    pub(crate) monomials: Vec<Monomial>,
}

impl View for Polynomial {
    type V = Seq<MonoModel>;

    closed spec fn view(&self) -> Seq<MonoModel> {
        self.monomials@.map_values(|m: Monomial| m@)
    }
}

/// Greatest common divisor of `acc` and the monomial values of `s`
/// from position `i` on.
pub open spec fn gcf_from(s: Seq<MonoModel>, acc: MonoModel, i: int) -> MonoModel
    decreases s.len() - i,
{
    if i < 0 || i >= s.len() {
        acc
    } else {
        gcf_from(s, gcd_model(acc, s[i]), i + 1)
    }
}

/// Greatest common divisor across all monomial values of a polynomial;
/// the empty polynomial yields the identity monomial.
pub open spec fn gcf_model(s: Seq<MonoModel>) -> MonoModel {
    if s.len() == 0 {
        identity()
    } else {
        gcf_from(s, s[0], 1)
    }
}

/// No coefficient sits at the very bottom of the machine range, so
/// every magnitude taken along a fold fits the machine.
pub open spec fn coefs_in_range(s: Seq<MonoModel>) -> bool {
    forall|i: int| 0 <= i < s.len() ==> (#[trigger] s[i]).coef != i64::MIN
}

/// Every monomial value of the sequence is one a monomial can carry.
pub open spec fn wf_seq(s: Seq<MonoModel>) -> bool {
    forall|i: int| 0 <= i < s.len() ==> (#[trigger] s[i]).wf()
}

/// A polynomial only ever holds representable monomial values.
pub proof fn lemma_view_wf(p: &Polynomial)
    ensures
        wf_seq(p@),
{
    assert forall|i: int| 0 <= i < p@.len() implies (#[trigger] p@[i]).wf() by {
        assert(p@[i] == p.monomials@[i]@);
    }
}

/// The greatest common monomial divisor of two values divides both.
pub proof fn lemma_gcd_model_divides(a: MonoModel, b: MonoModel)
    ensures
        mono_divides(gcd_model(a, b), a),
        mono_divides(gcd_model(a, b), b),
        gcd_model(a, b).coef >= 0,
{
    lemma_gcd_divides(abs(a.coef), abs(b.coef));
}

/// Monomial divisibility is transitive.
pub proof fn lemma_mono_divides_trans(a: MonoModel, b: MonoModel, c: MonoModel)
    requires
        mono_divides(a, b),
        mono_divides(b, c),
    ensures
        mono_divides(a, c),
{
    lemma_divides_trans(abs(a.coef), abs(b.coef), abs(c.coef));
}


/// A monomial dividing two monomials divides their greatest common
/// divisor.
pub proof fn lemma_mono_gcd_greatest(g: MonoModel, a: MonoModel, b: MonoModel)
    requires
        mono_divides(g, a),
        mono_divides(g, b),
    ensures
        mono_divides(g, gcd_model(a, b)),
{
    lemma_gcd_greatest(abs(g.coef), abs(a.coef), abs(b.coef));
}

/// The exponents of a polynomial's greatest common divisor stay in
/// the range an exponent can carry.
pub proof fn lemma_gcf_wf(s: Seq<MonoModel>)
    requires
        wf_seq(s),
    ensures
        gcf_model(s).exps.len() == VARS,
        forall|i: int| 0 <= i < VARS ==> 0 <= #[trigger] gcf_model(s).exps[i] <= u16::MAX,
{
    if s.len() > 0 {
        lemma_gcf_from_wf(s, s[0], 1);
    }
}

proof fn lemma_gcf_from_wf(s: Seq<MonoModel>, acc: MonoModel, i: int)
    requires
        wf_seq(s),
        acc.exps.len() == VARS,
        forall|k: int| 0 <= k < VARS ==> 0 <= #[trigger] acc.exps[k] <= u16::MAX,
    ensures
        gcf_from(s, acc, i).exps.len() == VARS,
        forall|k: int| 0 <= k < VARS ==> 0 <= #[trigger] gcf_from(s, acc, i).exps[k] <= u16::MAX,
    decreases s.len() - i,
{
    if i < 0 || i >= s.len() {
    } else {
        lemma_gcf_from_wf(s, gcd_model(acc, s[i]), i + 1);
    }
}

proof fn lemma_gcf_from_divides(s: Seq<MonoModel>, acc: MonoModel, i: int)
    requires
        0 <= i,
    ensures
        mono_divides(gcf_from(s, acc, i), acc),
        forall|j: int| i <= j < s.len() ==> mono_divides(gcf_from(s, acc, i), #[trigger] s[j]),
    decreases s.len() - i,
{
    if i < 0 || i >= s.len() {
        lemma_divides_refl(abs(acc.coef));
    } else {
        let g = gcf_from(s, acc, i);
        let g2 = gcd_model(acc, s[i]);
        assert(g == gcf_from(s, g2, i + 1));
        lemma_gcf_from_divides(s, g2, i + 1);
        lemma_gcd_model_divides(acc, s[i]);
        lemma_mono_divides_trans(g, g2, acc);
        lemma_mono_divides_trans(g, g2, s[i]);
        assert forall|j: int| i <= j < s.len() implies mono_divides(g, #[trigger] s[j]) by {
            if j > i {
                assert(mono_divides(gcf_from(s, g2, i + 1), s[j]));
            }
        }
    }
}

/// The overall greatest common divisor divides every monomial value
/// of the polynomial.
pub proof fn lemma_gcf_divides(s: Seq<MonoModel>)
    ensures
        forall|j: int| 0 <= j < s.len() ==> mono_divides(gcf_model(s), #[trigger] s[j]),
{
    if s.len() > 0 {
        lemma_gcf_from_divides(s, s[0], 1);
    }
}


/// The text of the monomials of a polynomial from position `i` on,
/// each preceded by a plus-sign separator.
pub open spec fn poly_tail_str(s: Seq<MonoModel>, i: int) -> Seq<char>
    decreases s.len() - i,
{
    if i < 1 || i >= s.len() {
        Seq::empty()
    } else {
        seq![' ', '+', ' '] + mono_str(s[i]) + poly_tail_str(s, i + 1)
    }
}

/// The text of a polynomial: its monomials joined by plus signs; the
/// empty polynomial renders as nothing.
pub open spec fn poly_str(s: Seq<MonoModel>) -> Seq<char> {
    if s.len() == 0 {
        Seq::empty()
    } else {
        mono_str(s[0]) + poly_tail_str(s, 1)
    }
}

impl Polynomial {
    /// A builder collecting monomials for a polynomial.
    pub fn builder() -> (r: Builder)
        ensures
            r@ == Seq::<MonoModel>::empty(),
    {
        Builder::default()
    }

    pub fn new(monomials: Vec<Monomial>) -> (r: Self)
        ensures
            r@ == monomials@.map_values(|m: Monomial| m@),
    {
        Self { monomials }
    }

    /// The monomials of this polynomial, in order.
    pub fn monomials(&self) -> (r: &Vec<Monomial>)
        ensures
            r@.map_values(|m: Monomial| m@) == self@,
    {
        &self.monomials
    }

    /// Mutable access to the monomials of this polynomial.
    pub fn monomials_mut(&mut self) -> (r: &mut Vec<Monomial>)
        ensures
            r@.map_values(|m: Monomial| m@) == old(self)@,
            final(self)@ == final(r)@.map_values(|m: Monomial| m@),
    {
        &mut self.monomials
    }

    /// Compute the greatest common divisor of all monomials; the empty
    /// polynomial yields the identity monomial.
    pub fn gcf(&self) -> (r: Monomial)
        requires
            coefs_in_range(self@),
        ensures
            r@ == gcf_model(self@),
            self@.len() == 0 ==> r@ == identity(),
            abs(r@.coef) <= i64::MAX as nat,
    {
        if self.monomials.len() == 0 {
            return Monomial::coefficient(1);
        }
        let mut acc = self.monomials[0];
        proof {
            assert(acc@ == self@[0]);
        }
        let mut k: usize = 1;
        #[verifier::loop_isolation(false)]
        while k < self.monomials.len()
            invariant
                1 <= k <= self@.len(),
                gcf_from(self@, acc@, k as int) == gcf_model(self@),
                abs(acc@.coef) <= i64::MAX as nat,
            decreases self@.len() - k,
        {
            let m = self.monomials[k];
            proof {
                assert(m@ == self@[k as int]);
                lemma_gcd_bound(abs(acc@.coef), abs(m@.coef));
            }
            acc = acc.gcd(m);
            k += 1;
        }
        acc
    }


    /// The textual notation of this polynomial.
    pub fn render(&self) -> (r: String)
        ensures
            r@ == poly_str(self@),
    {
        proof {
            reveal_strlit(" + ");
        }
        if self.monomials.len() == 0 {
            let r = String::new();
            proof {
                assert(r@ =~= poly_str(self@));
            }
            return r;
        }
        let first = &self.monomials[0];
        proof {
            assert(first@ == self@[0]);
        }
        let mut out = first.render();
        let mut k: usize = 1;
        #[verifier::loop_isolation(false)]
        loop
            invariant
                1 <= k <= self@.len(),
                out@ + poly_tail_str(self@, k as int) == poly_str(self@),
            decreases self@.len() - k,
        {
            if k == self.monomials.len() {
                proof {
                    assert(out@ + poly_tail_str(self@, k as int) =~= out@);
                }
                return out;
            }
            let ghost before = out@;
            let m = &self.monomials[k];
            proof {
                assert(m@ == self@[k as int]);
            }
            out.append(" + ");
            let ms = m.render();
            out.append(ms.as_str());
            proof {
                assert(out@ + poly_tail_str(self@, k + 1) =~= before + poly_tail_str(
                    self@,
                    k as int,
                ));
            }
            k = k + 1;
        }
    }

    /// The monomials whose coefficient is strictly positive, in order.
    pub fn nonzero(&self) -> (r: Vec<Monomial>)
        ensures
            r@.map_values(|m: Monomial| m@) == self@.filter(|m: MonoModel| m.coef > 0),
    {
        let mut out: Vec<Monomial> = Vec::new();
        let mut k: usize = 0;
        proof {
            assert(self@.take(0) =~= Seq::<MonoModel>::empty());
            reveal_with_fuel(Seq::<_>::filter, 1);
        }
        #[verifier::loop_isolation(false)]
        while k < self.monomials.len()
            invariant
                k <= self@.len(),
                out@.map_values(|m: Monomial| m@) == self@.take(k as int).filter(
                    |m: MonoModel| m.coef > 0,
                ),
            decreases self@.len() - k,
        {
            let m = self.monomials[k];
            proof {
                assert(m@ == self@[k as int]);
                let pred = |mm: MonoModel| mm.coef > 0;
                let t1 = self@.take(k + 1);
                assert(t1.drop_last() =~= self@.take(k as int));
                assert(t1.last() == m@);
                reveal_with_fuel(Seq::<_>::filter, 2);
                if pred(m@) {
                    assert(t1.filter(pred) == self@.take(k as int).filter(pred).push(m@));
                    assert((out@.push(m)).map_values(|mm: Monomial| mm@) =~= out@.map_values(
                        |mm: Monomial| mm@,
                    ).push(m@));
                } else {
                    assert(t1.filter(pred) == self@.take(k as int).filter(pred));
                }
            }
            if m.coefficient > 0 {
                out.push(m);
            }
            k += 1;
        }
        proof {
            assert(self@.take(self@.len() as int) =~= self@);
        }
        out
    }

    /// Divide every monomial in place by `rhs`, which must divide
    /// each of them.
    pub fn div_assign(&mut self, rhs: Monomial)
        requires
            rhs@.coef != 0,
            forall|i: int|
                0 <= i < old(self)@.len() ==> mono_divides(rhs@, #[trigger] old(self)@[i]),
            forall|i: int| 0 <= i < old(self)@.len() ==> div_fits(#[trigger] old(self)@[i], rhs@),
        ensures
            final(self)@ == old(self)@.map_values(|m: MonoModel| div_model(m, rhs@)),
    {
        let ghost target = old(self)@.map_values(|m: MonoModel| div_model(m, rhs@));
        let mut k: usize = 0;
        #[verifier::loop_isolation(false)]
        while k < self.monomials.len()
            invariant
                k <= self@.len(),
                self@.len() == old(self)@.len(),
                forall|j: int| 0 <= j < k ==> #[trigger] self@[j] == target[j],
                forall|j: int| k <= j < self@.len() ==> #[trigger] self@[j] == old(self)@[j],
            decreases self@.len() - k,
        {
            let mut m = self.monomials[k];
            let ghost prev = self@;
            proof {
                assert(m@ == self@[k as int]);
            }
            m.div_assign(rhs);
            self.monomials.set(k, m);
            proof {
                assert(self@ =~= prev.update(k as int, m@));
            }
            k += 1;
        }
        proof {
            assert(self@ =~= target);
        }
    }

    /// Scale every monomial in place by the product of the monomials
    /// of `rhs`, which is treated as a single collapsed monomial.
    pub fn mul_assign(&mut self, rhs: &Polynomial)
        requires
            crate::poly::term::product_fits(rhs@, rhs@.len() as int),
            forall|i: int|
                0 <= i < old(self)@.len() ==> mul_fits(
                    #[trigger] old(self)@[i],
                    crate::poly::term::product_model(rhs@, rhs@.len() as int),
                ),
        ensures
            final(self)@ == old(self)@.map_values(
                |m: MonoModel|
                    mul_model(m, crate::poly::term::product_model(rhs@, rhs@.len() as int)),
            ),
    {
        let ghost p = crate::poly::term::product_model(rhs@, rhs@.len() as int);
        let ghost target = old(self)@.map_values(|m: MonoModel| mul_model(m, p));
        let mut product = Monomial::coefficient(1);
        proof {
            assert(product@.exps =~= crate::poly::term::product_model(rhs@, 0).exps);
        }
        let mut k: usize = 0;
        #[verifier::loop_isolation(false)]
        while k < rhs.monomials.len()
            invariant
                k <= rhs@.len(),
                product@ == crate::poly::term::product_model(rhs@, k as int),
            decreases rhs@.len() - k,
        {
            let m = rhs.monomials[k];
            proof {
                assert(m@ == rhs@[k as int]);
                assert(crate::poly::term::product_prefix_fits(rhs@, k + 1));
                assert(forall|i: int|
                    0 <= i < VARS ==> #[trigger] product@.exps[i] + m@.exps[i]
                        == crate::poly::term::product_model(rhs@, k + 1).exps[i]);
            }
            product.mul_assign(m);
            k += 1;
        }
        let mut k: usize = 0;
        #[verifier::loop_isolation(false)]
        while k < self.monomials.len()
            invariant
                k <= self@.len(),
                self@.len() == old(self)@.len(),
                product@ == p,
                forall|j: int| 0 <= j < k ==> #[trigger] self@[j] == target[j],
                forall|j: int| k <= j < self@.len() ==> #[trigger] self@[j] == old(self)@[j],
            decreases self@.len() - k,
        {
            let mut m = self.monomials[k];
            let ghost prev = self@;
            proof {
                assert(m@ == self@[k as int]);
            }
            m.mul_assign(product);
            self.monomials.set(k, m);
            proof {
                assert(self@ =~= prev.update(k as int, m@));
            }
            k += 1;
        }
        proof {
            assert(self@ =~= target);
        }
    }
}



impl Monomials for Polynomial {
    open spec fn mono_values(&self) -> Seq<MonoModel> {
        self@
    }

    /// The monomials of this polynomial, in order.
    fn monomials(&self) -> (r: &Vec<Monomial>) {
        &self.monomials
    }
}

impl Gcd<Polynomial> for Polynomial {
    type Output = Monomial;

    open spec fn gcd_req(&self, rhs: &Polynomial) -> bool {
        coefs_in_range(self@) && coefs_in_range(rhs@)
    }

    open spec fn gcd_ensures(&self, rhs: &Polynomial, r: Monomial) -> bool {
        r@ == gcd_model(gcf_model(self@), gcf_model(rhs@))
    }

    /// The greatest common monomial divisor of two polynomials.
    fn gcd(&self, rhs: &Polynomial) -> (r: Monomial) {
        let gn = self.gcf();
        let gd = rhs.gcf();
        proof {
            lemma_gcd_bound(abs(gn@.coef), abs(gd@.coef));
        }
        gn.gcd(gd)
    }
}

impl Gcd<Monomial> for Polynomial {
    type Output = Monomial;

    open spec fn gcd_req(&self, rhs: &Monomial) -> bool {
        coefs_in_range(self@) && rhs@.coef != i64::MIN
    }

    open spec fn gcd_ensures(&self, rhs: &Monomial, r: Monomial) -> bool {
        r@ == gcd_model(gcf_model(self@), rhs@)
    }

    /// The greatest common monomial divisor of a polynomial and a
    /// monomial.
    fn gcd(&self, rhs: &Monomial) -> (r: Monomial) {
        let gn = self.gcf();
        proof {
            lemma_gcd_bound(abs(gn@.coef), abs(rhs@.coef));
        }
        gn.gcd(*rhs)
    }
}

} // verus!
