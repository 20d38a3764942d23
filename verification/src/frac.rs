//! A fraction of a polynomial over a single monomial, canonicalized
//! by their shared monomial greatest common divisor.

use crate::poly::mono::{
    div_fits, div_model, gcd_model, mono_divides, MonoModel, Monomial,
};
use crate::poly::num::{abs, lemma_divq_le, lemma_gcd_bound};
use crate::poly::{
    coefs_in_range, gcf_model, lemma_gcd_model_divides, lemma_gcf_divides, lemma_mono_divides_trans,
    lemma_view_wf, Polynomial,
};
use crate::poly::mono::mono_str;
use crate::poly::poly_str;
use vstd::prelude::*;
use vstd::string::StringExecFns;

verus! {

/// The text of a fraction: both sides in parentheses with a slash
/// between them.
pub open spec fn mixed_frac_str(n: Seq<MonoModel>, d: MonoModel) -> Seq<char> {
    seq!['('] + poly_str(n) + seq![')', ' ', '/', ' ', '('] + mono_str(d) + seq![')']
}

/// The shared monomial divisor of a polynomial over a monomial.
pub open spec fn mixed_gcd_model(n: Seq<MonoModel>, d: MonoModel) -> MonoModel {
    gcd_model(gcf_model(n), d)
}

/// A numerator polynomial over a denominator monomial.
#[derive(Clone, Debug, PartialEq)]
pub struct Fraction {
    pub numerator: Polynomial,
    pub denominator: Monomial,
}

impl Fraction {
    pub fn new(numerator: Polynomial, denominator: Monomial) -> (r: Self)
        ensures
            r.numerator@ == numerator@,
            r.denominator@ == denominator@,
    {
        Self { numerator, denominator }
    }

    /// Divide both sides by their shared monomial divisor, leaving
    /// the fraction fully reduced.
    pub fn simplify(&mut self)
        requires
            coefs_in_range(old(self).numerator@),
            old(self).denominator@.coef != i64::MIN as int,
            mixed_gcd_model(old(self).numerator@, old(self).denominator@).coef != 0,
        ensures
            final(self).numerator@ == old(self).numerator@.map_values(
                |m: MonoModel|
                    div_model(m, mixed_gcd_model(old(self).numerator@, old(self).denominator@)),
            ),
            final(self).denominator@ == div_model(
                old(self).denominator@,
                mixed_gcd_model(old(self).numerator@, old(self).denominator@),
            ),
    {
        let ghost n = self.numerator@;
        let ghost d = self.denominator@;
        let ghost g = mixed_gcd_model(n, d);
        let gn = self.numerator.gcf();
        proof {
            lemma_gcd_bound(abs(gn@.coef), abs(d.coef));
        }
        let gcd = gn.gcd(self.denominator);
        proof {
            lemma_view_wf(&self.numerator);
            lemma_gcf_divides(n);
            lemma_gcd_model_divides(gcf_model(n), d);
            assert forall|i: int| 0 <= i < n.len() implies mono_divides(g, #[trigger] n[i]) by {
                lemma_mono_divides_trans(g, gcf_model(n), n[i]);
            }
            assert forall|i: int| 0 <= i < n.len() implies div_fits(#[trigger] n[i], g) by {
                lemma_divq_le(n[i].coef, g.coef);
            }
            lemma_divq_le(d.coef, g.coef);
        }
        self.numerator.div_assign(gcd);
        self.denominator.div_assign(gcd);
    }


    /// The textual notation of this fraction.
    pub fn render(&self) -> (r: String)
        ensures
            r@ == mixed_frac_str(self.numerator@, self.denominator@),
    {
        proof {
            reveal_strlit("(");
            reveal_strlit(") / (");
            reveal_strlit(")");
        }
        let mut out = "(".to_owned();
        let ns = self.numerator.render();
        out.append(ns.as_str());
        out.append(") / (");
        let ds = self.denominator.render();
        out.append(ds.as_str());
        out.append(")");
        proof {
            assert(out@ =~= mixed_frac_str(self.numerator@, self.denominator@));
        }
        out
    }

    /// This fraction, fully reduced.
    pub fn into_simplified(self) -> (r: Self)
        requires
            coefs_in_range(self.numerator@),
            self.denominator@.coef != i64::MIN as int,
            mixed_gcd_model(self.numerator@, self.denominator@).coef != 0,
        ensures
            r.numerator@ == self.numerator@.map_values(
                |m: MonoModel| div_model(m, mixed_gcd_model(self.numerator@, self.denominator@)),
            ),
            r.denominator@ == div_model(
                self.denominator@,
                mixed_gcd_model(self.numerator@, self.denominator@),
            ),
    {
        let mut f = self;
        f.simplify();
        f
    }
}

} // verus!
