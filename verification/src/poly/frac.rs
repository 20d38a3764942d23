//! Fractions of two polynomials, canonicalized by their shared
//! monomial greatest common divisor.

use crate::poly::mono::{
    div_fits, div_model, gcd_model, identity, mono_divides, MonoModel, Monomial, VARS,
};
use crate::poly::num::{
    abs, divq, gcd_nat, lemma_divq_exact, lemma_divq_le, lemma_gcd_bound, lemma_gcd_one,
    lemma_gcd_scale,
};
use crate::poly::{
    coefs_in_range, gcf_from, gcf_model, lemma_gcd_model_divides, lemma_gcf_divides, lemma_gcf_wf,
    lemma_mono_divides_trans, lemma_mono_gcd_greatest, wf_seq, Polynomial,
};
use vstd::arithmetic::div_mod::{lemma_div_multiples_vanish, lemma_fundamental_div_mod};
use crate::poly::poly_str;
use vstd::prelude::*;
use vstd::string::StringExecFns;

verus! {

/// The text of a fraction: both sides in parentheses with a slash
/// between them.
pub open spec fn frac_str(n: Seq<MonoModel>, d: Seq<MonoModel>) -> Seq<char> {
    seq!['('] + poly_str(n) + seq![')', ' ', '/', ' ', '('] + poly_str(d) + seq![')']
}

/// The shared monomial divisor of a fraction: the greatest common
/// divisor of the two sides' own term-wise divisors.
pub open spec fn frac_gcd_model(n: Seq<MonoModel>, d: Seq<MonoModel>) -> MonoModel {
    gcd_model(gcf_model(n), gcf_model(d))
}

/// A numerator and denominator polynomial.
#[derive(Clone, Debug, PartialEq)]
pub struct Fraction {
    pub numerator: Polynomial,
    pub denominator: Polynomial,
}


/// Dividing a monomial by the identity changes nothing.
pub proof fn lemma_div_identity(m: MonoModel)
    requires
        m.exps.len() == VARS,
    ensures
        div_model(m, identity()) == m,
{
    lemma_fundamental_div_mod(abs(m.coef) as int, 1);
    assert(abs(m.coef) as int / 1 == abs(m.coef));
    assert(div_model(m, identity()).coef == m.coef);
    assert(div_model(m, identity()).exps =~= m.exps);
}

/// Dividing two monomials by a common divisor divides their greatest
/// common divisor by it.
proof fn lemma_gcd_model_div(a: MonoModel, b: MonoModel, g: MonoModel)
    requires
        g.coef > 0,
        mono_divides(g, a),
        mono_divides(g, b),
    ensures
        gcd_model(div_model(a, g), div_model(b, g)) == div_model(gcd_model(a, b), g),
{
    let gc = abs(g.coef);
    let qa = abs(a.coef) / gc;
    let qb = abs(b.coef) / gc;
    lemma_divq_exact(a.coef, g.coef);
    lemma_divq_exact(b.coef, g.coef);
    lemma_fundamental_div_mod(abs(a.coef) as int, gc as int);
    lemma_fundamental_div_mod(abs(b.coef) as int, gc as int);
    assert(abs(a.coef) == gc * qa) by (nonlinear_arith)
        requires
            abs(a.coef) == qa * gc + abs(a.coef) % gc,
            abs(a.coef) % gc == 0,
    ;
    assert(abs(b.coef) == gc * qb) by (nonlinear_arith)
        requires
            abs(b.coef) == qb * gc + abs(b.coef) % gc,
            abs(b.coef) % gc == 0,
    ;
    lemma_gcd_scale(gc, qa, qb);
    assert(gcd_nat(abs(a.coef), abs(b.coef)) == gc * gcd_nat(qa, qb));
    lemma_div_multiples_vanish(gcd_nat(qa, qb) as int, gc as int);
    assert(gcd_nat(abs(a.coef), abs(b.coef)) as int / gc as int == gcd_nat(qa, qb));
    assert(abs(divq(a.coef, g.coef)) == qa);
    assert(abs(divq(b.coef, g.coef)) == qb);
    assert(gcd_model(div_model(a, g), div_model(b, g)).coef == div_model(
        gcd_model(a, b),
        g,
    ).coef);
    assert(gcd_model(div_model(a, g), div_model(b, g)).exps =~= div_model(
        gcd_model(a, b),
        g,
    ).exps);
}

proof fn lemma_gcf_from_div(s: Seq<MonoModel>, acc: MonoModel, i: int, g: MonoModel)
    requires
        g.coef > 0,
        mono_divides(g, acc),
        forall|j: int| 0 <= j < s.len() ==> mono_divides(g, #[trigger] s[j]),
    ensures
        gcf_from(s.map_values(|m: MonoModel| div_model(m, g)), div_model(acc, g), i)
            == div_model(gcf_from(s, acc, i), g),
    decreases s.len() - i,
{
    let s2 = s.map_values(|m: MonoModel| div_model(m, g));
    if i < 0 || i >= s.len() {
    } else {
        assert(s2[i] == div_model(s[i], g));
        lemma_gcd_model_div(acc, s[i], g);
        lemma_mono_gcd_greatest(g, acc, s[i]);
        lemma_gcf_from_div(s, gcd_model(acc, s[i]), i + 1, g);
    }
}

/// Dividing every monomial of a polynomial by a common divisor
/// divides the polynomial's own greatest common divisor by it.
proof fn lemma_gcf_div(s: Seq<MonoModel>, g: MonoModel)
    requires
        g.coef > 0,
        s.len() > 0,
        forall|j: int| 0 <= j < s.len() ==> mono_divides(g, #[trigger] s[j]),
    ensures
        gcf_model(s.map_values(|m: MonoModel| div_model(m, g))) == div_model(gcf_model(s), g),
{
    let s2 = s.map_values(|m: MonoModel| div_model(m, g));
    assert(s2[0] == div_model(s[0], g));
    lemma_gcf_from_div(s, s[0], 1, g);
}

/// A fraction whose shared monomial divisor is already the identity
/// is left unchanged by simplification.
pub proof fn lemma_simplify_coprime_noop(n: Seq<MonoModel>, d: Seq<MonoModel>)
    requires
        wf_seq(n),
        wf_seq(d),
        frac_gcd_model(n, d) == identity(),
    ensures
        n.map_values(|m: MonoModel| div_model(m, frac_gcd_model(n, d))) == n,
        d.map_values(|m: MonoModel| div_model(m, frac_gcd_model(n, d))) == d,
{
    assert forall|i: int| 0 <= i < n.len() implies n.map_values(
        |m: MonoModel| div_model(m, frac_gcd_model(n, d)),
    )[i] == n[i] by {
        lemma_div_identity(n[i]);
    }
    assert forall|i: int| 0 <= i < d.len() implies d.map_values(
        |m: MonoModel| div_model(m, frac_gcd_model(n, d)),
    )[i] == d[i] by {
        lemma_div_identity(d[i]);
    }
    assert(n.map_values(|m: MonoModel| div_model(m, frac_gcd_model(n, d))) =~= n);
    assert(d.map_values(|m: MonoModel| div_model(m, frac_gcd_model(n, d))) =~= d);
}

/// Simplifying a fraction leaves the identity as its shared monomial
/// divisor, so simplifying again changes nothing: simplification is
/// idempotent.
pub proof fn lemma_simplify_idempotent(n: Seq<MonoModel>, d: Seq<MonoModel>)
    requires
        wf_seq(n),
        wf_seq(d),
        frac_gcd_model(n, d).coef != 0,
    ensures
        ({
            let g = frac_gcd_model(n, d);
            let n2 = n.map_values(|m: MonoModel| div_model(m, g));
            let d2 = d.map_values(|m: MonoModel| div_model(m, g));
            &&& frac_gcd_model(n2, d2) == identity()
            &&& n2.map_values(|m: MonoModel| div_model(m, frac_gcd_model(n2, d2))) == n2
            &&& d2.map_values(|m: MonoModel| div_model(m, frac_gcd_model(n2, d2))) == d2
        }),
{
    let g = frac_gcd_model(n, d);
    let n2 = n.map_values(|m: MonoModel| div_model(m, g));
    let d2 = d.map_values(|m: MonoModel| div_model(m, g));
    let gn = gcf_model(n);
    let gd = gcf_model(d);
    lemma_gcd_model_divides(gn, gd);
    assert(g.coef > 0);
    lemma_gcf_divides(n);
    lemma_gcf_divides(d);
    assert forall|j: int| 0 <= j < n.len() implies mono_divides(g, #[trigger] n[j]) by {
        lemma_mono_divides_trans(g, gn, n[j]);
    }
    assert forall|j: int| 0 <= j < d.len() implies mono_divides(g, #[trigger] d[j]) by {
        lemma_mono_divides_trans(g, gd, d[j]);
    }
    lemma_gcf_wf(n);
    lemma_gcf_wf(d);
    // the shared divisor of the simplified sides is the identity
    if n.len() > 0 && d.len() > 0 {
        lemma_gcf_div(n, g);
        lemma_gcf_div(d, g);
        lemma_gcd_model_div(gn, gd, g);
        assert(frac_gcd_model(n2, d2) == div_model(g, g));
        lemma_divq_exact(g.coef, g.coef);
        lemma_fundamental_div_mod(abs(g.coef) as int, abs(g.coef) as int);
        assert(abs(g.coef) % abs(g.coef) == 0);
        assert(abs(g.coef) == abs(g.coef) * 1) by (nonlinear_arith);
        lemma_div_multiples_vanish(1, abs(g.coef) as int);
        assert(abs(g.coef) as int / abs(g.coef) as int == 1);
        assert(div_model(g, g).coef == 1);
        assert(div_model(g, g).exps =~= identity().exps);
        assert(frac_gcd_model(n2, d2) == identity());
    } else if n.len() == 0 {
        assert(gn == identity());
        lemma_gcd_one(abs(gd.coef));
        assert(g.coef == 1);
        assert(g.exps =~= identity().exps);
        assert(g == identity());
        lemma_simplify_coprime_noop(n, d);
        assert(n2 =~= n);
        assert(d2 =~= d);
        assert(frac_gcd_model(n2, d2) == identity());
    } else {
        assert(gd == identity());
        let one = gcd_nat(abs(gn.coef), 1);
        crate::poly::num::lemma_gcd_bound(abs(gn.coef), 1);
        crate::poly::num::lemma_gcd_divides(abs(gn.coef), 1);
        crate::poly::num::lemma_divides_le(one, 1);
        assert(one == 1);
        assert(g.coef == 1);
        assert(g.exps =~= identity().exps);
        assert(g == identity());
        lemma_simplify_coprime_noop(n, d);
        assert(n2 =~= n);
        assert(d2 =~= d);
        assert(frac_gcd_model(n2, d2) == identity());
    }
    // and simplifying again leaves both sides alone
    assert forall|i: int| 0 <= i < n2.len() implies (#[trigger] n2[i]).wf() by {
        assert(n2[i] == div_model(n[i], g));
        lemma_div_model_wf(n[i], g);
    }
    assert forall|i: int| 0 <= i < d2.len() implies (#[trigger] d2[i]).wf() by {
        assert(d2[i] == div_model(d[i], g));
        lemma_div_model_wf(d[i], g);
    }
    lemma_simplify_coprime_noop(n2, d2);
}

/// Exact division by a positive monomial divisor keeps a monomial
/// value representable.
proof fn lemma_div_model_wf(m: MonoModel, g: MonoModel)
    requires
        m.wf(),
        g.coef > 0,
        g.exps.len() == VARS,
        forall|k: int| 0 <= k < VARS ==> #[trigger] g.exps[k] >= 0,
        mono_divides(g, m),
    ensures
        div_model(m, g).wf(),
{
    lemma_divq_le(m.coef, g.coef);
    if m.coef >= 0 {
        assert(divq(m.coef, g.coef) >= 0);
    } else {
        assert(divq(m.coef, g.coef) <= 0);
    }
    assert(forall|k: int|
        0 <= k < VARS ==> 0 <= #[trigger] div_model(m, g).exps[k] <= u16::MAX);
}

impl Fraction {
    pub fn new(numerator: Polynomial, denominator: Polynomial) -> (r: Self)
        ensures
            r.numerator@ == numerator@,
            r.denominator@ == denominator@,
    {
        Self { numerator, denominator }
    }

    /// The shared monomial divisor of numerator and denominator.
    pub fn gcd(&self) -> (r: Monomial)
        requires
            coefs_in_range(self.numerator@),
            coefs_in_range(self.denominator@),
        ensures
            r@ == frac_gcd_model(self.numerator@, self.denominator@),
            r@.coef >= 0,
    {
        let gn = self.numerator.gcf();
        let gd = self.denominator.gcf();
        proof {
            lemma_gcd_bound(abs(gn@.coef), abs(gd@.coef));
        }
        gn.gcd(gd)
    }

    /// Divide every term of both sides by the shared monomial divisor,
    /// leaving the fraction fully reduced.
    pub fn simplify(&mut self)
        requires
            coefs_in_range(old(self).numerator@),
            coefs_in_range(old(self).denominator@),
            frac_gcd_model(old(self).numerator@, old(self).denominator@).coef != 0,
        ensures
            final(self).numerator@ == old(self).numerator@.map_values(
                |m: MonoModel| div_model(m, frac_gcd_model(old(self).numerator@, old(self).denominator@)),
            ),
            final(self).denominator@ == old(self).denominator@.map_values(
                |m: MonoModel| div_model(m, frac_gcd_model(old(self).numerator@, old(self).denominator@)),
            ),
    {
        let ghost n = self.numerator@;
        let ghost d = self.denominator@;
        let ghost g = frac_gcd_model(n, d);
        let gcd = self.gcd();
        proof {
            lemma_gcf_divides(n);
            lemma_gcf_divides(d);
            lemma_gcd_model_divides(gcf_model(n), gcf_model(d));
            assert forall|i: int| 0 <= i < n.len() implies mono_divides(g, #[trigger] n[i]) by {
                lemma_mono_divides_trans(g, gcf_model(n), n[i]);
            }
            assert forall|i: int| 0 <= i < d.len() implies mono_divides(g, #[trigger] d[i]) by {
                lemma_mono_divides_trans(g, gcf_model(d), d[i]);
            }
            assert forall|i: int| 0 <= i < n.len() implies div_fits(#[trigger] n[i], g) by {
                lemma_divq_le(n[i].coef, g.coef);
            }
            assert forall|i: int| 0 <= i < d.len() implies div_fits(#[trigger] d[i], g) by {
                lemma_divq_le(d[i].coef, g.coef);
            }
        }
        self.numerator.div_assign(gcd);
        self.denominator.div_assign(gcd);
    }


    /// The textual notation of this fraction.
    pub fn render(&self) -> (r: String)
        ensures
            r@ == frac_str(self.numerator@, self.denominator@),
    {
        proof {
            reveal_strlit("(");
            reveal_strlit(") / (");
            reveal_strlit(")");
        }
        let mut out = "(".to_owned();
        let ns = self.numerator.render();
        out.append(ns.as_str());
        out.append(") / (");
        let ds = self.denominator.render();
        out.append(ds.as_str());
        out.append(")");
        proof {
            assert(out@ =~= frac_str(self.numerator@, self.denominator@));
        }
        out
    }

    /// This fraction, fully reduced.
    pub fn into_simplified(self) -> (r: Self)
        requires
            coefs_in_range(self.numerator@),
            coefs_in_range(self.denominator@),
            frac_gcd_model(self.numerator@, self.denominator@).coef != 0,
        ensures
            r.numerator@ == self.numerator@.map_values(
                |m: MonoModel| div_model(m, frac_gcd_model(self.numerator@, self.denominator@)),
            ),
            r.denominator@ == self.denominator@.map_values(
                |m: MonoModel| div_model(m, frac_gcd_model(self.numerator@, self.denominator@)),
            ),
    {
        let mut f = self;
        f.simplify();
        f
    }
}

impl Polynomial {
    /// Divide this polynomial by another, producing the fraction of
    /// the two with their shared monomial divisor cancelled.
    pub fn div(self, rhs: Polynomial) -> (r: Fraction)
        requires
            coefs_in_range(self@),
            coefs_in_range(rhs@),
            frac_gcd_model(self@, rhs@).coef != 0,
        ensures
            r.numerator@ == self@.map_values(
                |m: MonoModel| div_model(m, frac_gcd_model(self@, rhs@)),
            ),
            r.denominator@ == rhs@.map_values(
                |m: MonoModel| div_model(m, frac_gcd_model(self@, rhs@)),
            ),
    {
        Fraction::new(self, rhs).into_simplified()
    }
}

} // verus!
