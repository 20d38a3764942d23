//! Monomials: a signed coefficient times a product of the fixed
//! variables, each raised to a non-negative exponent.

use crate::poly::num::{abs, divides, divq, gcd, gcd_nat, lemma_gcd_commutes, lemma_gcd_self};
use crate::render::{dec_str, digit_char, int_str, letter_char, letter_str, render_i64, render_u64};
use vstd::prelude::*;
use vstd::string::{StrSliceExecFns, StringExecFns};

verus! {

/// Number of variable identities; letters `a` onward map to slots `0` onward.
pub const VARS: usize = 4;

/// Mathematical value of a monomial: a coefficient and one exponent
/// per variable slot.
pub struct MonoModel {
    pub coef: int,
    pub exps: Seq<int>,
}

impl MonoModel {
    /// A monomial value that a `Monomial` can represent.
    pub open spec fn wf(self) -> bool {
        &&& self.exps.len() == VARS
        &&& i64::MIN <= self.coef <= i64::MAX
        &&& forall|i: int| 0 <= i < VARS ==> 0 <= #[trigger] self.exps[i] <= u16::MAX
    }
}

/// The identity monomial: coefficient one, all exponents zero.
pub open spec fn identity() -> MonoModel {
    MonoModel { coef: 1, exps: Seq::new(VARS as nat, |i: int| 0) }
}

/// A bare coefficient: all exponents zero.
pub open spec fn coef_only(c: int) -> MonoModel {
    MonoModel { coef: c, exps: Seq::new(VARS as nat, |i: int| 0) }
}

/// Product of two monomials: coefficients multiply, exponents add.
pub open spec fn mul_model(a: MonoModel, b: MonoModel) -> MonoModel {
    MonoModel { coef: a.coef * b.coef, exps: Seq::new(VARS as nat, |i: int| a.exps[i] + b.exps[i]) }
}

/// Exact quotient of two monomials: coefficients divide, exponents subtract.
pub open spec fn div_model(m: MonoModel, d: MonoModel) -> MonoModel {
    MonoModel {
        coef: divq(m.coef, d.coef),
        exps: Seq::new(VARS as nat, |i: int| m.exps[i] - d.exps[i]),
    }
}

/// Greatest common monomial divisor: coefficient `gcd` on magnitudes,
/// exponents combined elementwise by minimum.
pub open spec fn gcd_model(a: MonoModel, b: MonoModel) -> MonoModel {
    MonoModel {
        coef: gcd_nat(abs(a.coef), abs(b.coef)) as int,
        exps: Seq::new(
            VARS as nat,
            |i: int|
                if a.exps[i] <= b.exps[i] {
                    a.exps[i]
                } else {
                    b.exps[i]
                },
        ),
    }
}

/// The product of two monomial values stays within the machine bounds
/// of a monomial.
pub open spec fn mul_fits(a: MonoModel, b: MonoModel) -> bool {
    &&& i64::MIN <= a.coef * b.coef <= i64::MAX
    &&& forall|i: int| 0 <= i < VARS ==> (#[trigger] a.exps[i]) + b.exps[i] <= u16::MAX
}

/// The exact coefficient quotient stays within the machine bounds of
/// a monomial.
pub open spec fn div_fits(m: MonoModel, d: MonoModel) -> bool {
    i64::MIN <= divq(m.coef, d.coef) <= i64::MAX
}

/// `d` divides `m` as a monomial: the coefficient magnitude divides
/// and no exponent exceeds the dividend's.
pub open spec fn mono_divides(d: MonoModel, m: MonoModel) -> bool {
    &&& divides(abs(d.coef), abs(m.coef))
    &&& forall|i: int| 0 <= i < VARS ==> #[trigger] d.exps[i] <= m.exps[i]
}


/// The greatest common monomial divisor does not depend on the order
/// of its arguments.
pub proof fn lemma_mono_gcd_commutes(a: MonoModel, b: MonoModel)
    ensures
        gcd_model(a, b) == gcd_model(b, a),
{
    lemma_gcd_commutes(abs(a.coef), abs(b.coef));
    assert(gcd_model(a, b).exps =~= gcd_model(b, a).exps);
}

/// The greatest common divisor of a monomial with itself is the same
/// monomial, up to coefficient sign normalization.
pub proof fn lemma_mono_gcd_self(a: MonoModel)
    requires
        a.exps.len() == VARS,
    ensures
        gcd_model(a, a) == (MonoModel { coef: abs(a.coef) as int, exps: a.exps }),
{
    lemma_gcd_self(abs(a.coef));
    assert(gcd_model(a, a).exps =~= a.exps);
}


/// A value that exposes its monomials as a contiguous collection.
pub trait Monomials {
    /// The monomial values held, in order.
    spec fn mono_values(&self) -> Seq<MonoModel>;

    /// The monomials held, in order.
    fn monomials(&self) -> (r: &Vec<Monomial>)
        ensures
            r@.map_values(|m: Monomial| m@) == self.mono_values(),
    ;
}

/// A decimal digit.
pub open spec fn is_digit(c: char) -> bool {
    48 <= c as u32 <= 57
}

/// Numeric value of a decimal digit.
pub open spec fn digit_val(c: char) -> int {
    c as u32 - 48
}

/// A letter naming one of the variables.
pub open spec fn is_var(c: char) -> bool {
    97 <= c as u32 && (c as u32) < 97 + (VARS as u32)
}

/// Slot index of a variable letter.
pub open spec fn var_idx(c: char) -> int {
    c as u32 - 97
}

/// Which numeral exceeded its representable range.
#[derive(Clone, Copy, Debug, PartialEq, Eq)]
pub enum OverflowError {
    Coefficient,
    Exponent,
}

/// Why a parse failed: no terms in the input, a numeral out of range,
/// a letter outside the variable range, or a token disallowed by the
/// grammar in its current state.
#[derive(Clone, Copy, Debug, PartialEq, Eq)]
pub enum ParseError {
    Empty,
    Overflow(OverflowError),
    Symbol,
    Syntax,
}

/// A coefficient with one exponent per variable slot.
#[derive(Clone, Copy, Debug, PartialEq, Eq)]
pub struct Monomial {
    pub coefficient: i64,
    pub exponents: [u16; VARS],
}

impl View for Monomial {
    type V = MonoModel;

    open spec fn view(&self) -> MonoModel {
        MonoModel {
            coef: self.coefficient as int,
            exps: Seq::new(VARS as nat, |i: int| self.exponents@[i] as int),
        }
    }
}

impl Monomial {
    pub fn new(coefficient: i64, exponents: [u16; VARS]) -> (r: Self)
        ensures
            r@.coef == coefficient as int,
            r@.exps == Seq::new(VARS as nat, |i: int| exponents@[i] as int),
    {
        Self { coefficient, exponents }
    }

    /// A monomial that is a bare coefficient.
    pub fn coefficient(coefficient: i64) -> (r: Self)
        ensures
            r@ == coef_only(coefficient as int),
    {
        let r = Self { coefficient, exponents: [0; VARS] };
        proof {
            assert(r@.exps =~= coef_only(coefficient as int).exps);
        }
        r
    }

    /// This monomial with one exponent replaced.
    pub fn exponent(self, index: usize, degree: u16) -> (r: Self)
        requires
            index < VARS,
        ensures
            r@.coef == self@.coef,
            r@.exps == self@.exps.update(index as int, degree as int),
    {
        let mut r = self;
        r.exponents[index] = degree;
        proof {
            assert(r@.exps =~= self@.exps.update(index as int, degree as int));
        }
        r
    }

    /// Compute the greatest common divisor of this and another monomial.
    pub fn gcd(self, rhs: Self) -> (r: Self)
        requires
            gcd_nat(abs(self@.coef), abs(rhs@.coef)) <= i64::MAX as nat,
        ensures
            r@ == gcd_model(self@, rhs@),
    {
        let c = gcd(self.coefficient, rhs.coefficient);
        let mut e = self.exponents;
        let mut k: usize = 0;
        #[verifier::loop_isolation(false)]
        while k < VARS
            invariant
                k <= VARS,
                forall|j: int|
                    0 <= j < k ==> e@[j] as int == gcd_model(self@, rhs@).exps[j],
                forall|j: int| k <= j < VARS ==> e@[j] == self.exponents@[j],
            decreases VARS - k,
        {
            if rhs.exponents[k] < e[k] {
                e[k] = rhs.exponents[k];
            }
            k += 1;
        }
        let r = Self { coefficient: c, exponents: e };
        proof {
            assert(r@.exps =~= gcd_model(self@, rhs@).exps);
        }
        r
    }

    /// Multiply this monomial by another in place.
    pub fn mul_assign(&mut self, rhs: Self)
        requires
            mul_fits(old(self)@, rhs@),
        ensures
            final(self)@ == mul_model(old(self)@, rhs@),
    {
        self.coefficient = self.coefficient * rhs.coefficient;
        let mut k: usize = 0;
        #[verifier::loop_isolation(false)]
        while k < VARS
            invariant
                k <= VARS,
                self.coefficient == old(self).coefficient * rhs.coefficient,
                forall|j: int|
                    0 <= j < k ==> self.exponents@[j] as int == mul_model(old(self)@, rhs@).exps[j],
                forall|j: int| k <= j < VARS ==> self.exponents@[j] == old(self).exponents@[j],
            decreases VARS - k,
        {
            proof {
                assert(self.exponents@[k as int] as int == old(self)@.exps[k as int]);
                assert(rhs.exponents@[k as int] as int == rhs@.exps[k as int]);
            }
            self.exponents[k] = self.exponents[k] + rhs.exponents[k];
            k += 1;
        }
        proof {
            assert(self@.exps =~= mul_model(old(self)@, rhs@).exps);
        }
    }

    /// Product of this monomial and another.
    pub fn mul(self, rhs: Self) -> (r: Self)
        requires
            mul_fits(self@, rhs@),
        ensures
            r@ == mul_model(self@, rhs@),
    {
        let mut r = self;
        r.mul_assign(rhs);
        r
    }

    /// Divide this monomial exactly by another in place.  The divisor
    /// must divide this monomial, as a prior `gcd` step guarantees.
    pub fn div_assign(&mut self, rhs: Self)
        requires
            rhs@.coef != 0,
            mono_divides(rhs@, old(self)@),
            div_fits(old(self)@, rhs@),
        ensures
            final(self)@ == div_model(old(self)@, rhs@),
            final(self)@.coef * rhs@.coef == old(self)@.coef,
    {
        proof {
            crate::poly::num::lemma_divq_exact(old(self)@.coef, rhs@.coef);
        }
        self.coefficient = crate::poly::num::divide(self.coefficient, rhs.coefficient);
        let mut k: usize = 0;
        #[verifier::loop_isolation(false)]
        while k < VARS
            invariant
                k <= VARS,
                self.coefficient as int == divq(old(self)@.coef, rhs@.coef),
                forall|j: int|
                    0 <= j < k ==> self.exponents@[j] as int == div_model(old(self)@, rhs@).exps[j],
                forall|j: int| k <= j < VARS ==> self.exponents@[j] == old(self).exponents@[j],
            decreases VARS - k,
        {
            proof {
                assert(self.exponents@[k as int] as int == old(self)@.exps[k as int]);
                assert(rhs.exponents@[k as int] as int == rhs@.exps[k as int]);
            }
            self.exponents[k] = self.exponents[k] - rhs.exponents[k];
            k += 1;
        }
        proof {
            assert(self@.exps =~= div_model(old(self)@, rhs@).exps);
        }
    }
}


/// First position at or after `i` that does not hold a digit.
pub open spec fn int_end(s: Seq<char>, i: int) -> int
    decreases s.len() - i,
{
    if 0 <= i < s.len() && is_digit(s[i]) {
        int_end(s, i + 1)
    } else {
        i
    }
}

/// Value of the run of digits from `i` up to `j`.
pub open spec fn int_val(s: Seq<char>, i: int, j: int) -> int
    decreases j - i,
{
    if j <= i {
        0
    } else {
        int_val(s, i, j - 1) * 10 + digit_val(s[j - 1])
    }
}

/// `m` with the exponent of `var` replaced by `e`.
pub open spec fn set_exp(m: MonoModel, var: int, e: int) -> MonoModel {
    MonoModel { coef: m.coef, exps: m.exps.update(var, e) }
}

/// A digit run never ends before it starts and stays inside the text.
pub proof fn lemma_int_end(s: Seq<char>, i: int)
    ensures
        int_end(s, i) >= i,
        i <= s.len() ==> int_end(s, i) <= s.len(),
        0 <= i ==> forall|t: int| i <= t < int_end(s, i) ==> is_digit(s[t]),
        0 <= int_end(s, i) < s.len() ==> !is_digit(s[int_end(s, i)]),
    decreases s.len() - i,
{
    if 0 <= i < s.len() && is_digit(s[i]) {
        lemma_int_end(s, i + 1);
    }
}

/// The value of a digit run is never negative.
pub proof fn lemma_int_val_nonneg(s: Seq<char>, i: int, j: int)
    requires
        0 <= i,
        j <= int_end(s, i),
    ensures
        int_val(s, i, j) >= 0,
    decreases j - i,
{
    if j > i {
        lemma_int_end(s, i);
        assert(is_digit(s[j - 1]));
        lemma_int_val_nonneg(s, i, j - 1);
    }
}

/// The variable factors of a monomial's text from position `i` on,
/// folded into `m`: each a letter with an optional `^`-marked
/// exponent, an unmarked letter carrying the exponent one.
pub open spec fn vars_spec(s: Seq<char>, i: int, m: MonoModel) -> Result<MonoModel, ParseError>
    decreases s.len() - i,
    via vars_spec_decreases
{
    if i < 0 || i >= s.len() {
        Ok(m)
    } else {
        let c = s[i];
        if !is_var(c) {
            Err(ParseError::Symbol)
        } else {
            let v = var_idx(c);
            if i + 1 < s.len() && s[i + 1] as u32 == 94 {
                let j = int_end(s, i + 2);
                if j == i + 2 {
                    Err(ParseError::Overflow(OverflowError::Exponent))
                } else if int_val(s, i + 2, j) > u16::MAX {
                    Err(ParseError::Overflow(OverflowError::Exponent))
                } else {
                    vars_spec(s, j, set_exp(m, v, int_val(s, i + 2, j)))
                }
            } else {
                vars_spec(s, i + 1, set_exp(m, v, 1))
            }
        }
    }
}

#[via_fn]
proof fn vars_spec_decreases(s: Seq<char>, i: int, m: MonoModel) {
    if 0 <= i < s.len() {
        lemma_int_end(s, i + 2);
    }
}

/// The monomial a whole piece of text stands for: an optional leading
/// integer coefficient followed by variable factors, or the first
/// error.  Empty input carries no monomial at all.
pub open spec fn parse_mono(s: Seq<char>) -> Result<MonoModel, ParseError> {
    if s.len() == 0 {
        Err(ParseError::Empty)
    } else if is_digit(s[0]) {
        let j = int_end(s, 0);
        if int_val(s, 0, j) > i64::MAX {
            Err(ParseError::Overflow(OverflowError::Coefficient))
        } else {
            vars_spec(s, j, coef_only(int_val(s, 0, j)))
        }
    } else {
        vars_spec(s, 0, identity())
    }
}

/// Scan the run of digits starting at `start`: its value, or nothing
/// if the value exceeds the representable range, and the position
/// just past the run.
pub fn parse_int(s: &str, start: usize) -> (r: (Option<i64>, usize))
    requires
        start <= s@.len(),
    ensures
        r.1 as int == int_end(s@, start as int),
        match r.0 {
            Some(v) => v as int == int_val(s@, start as int, r.1 as int) && v >= 0,
            None => int_val(s@, start as int, r.1 as int) > i64::MAX,
        },
{
    let len = s.unicode_len();
    let mut j = start;
    let mut acc: Option<i64> = Some(0);
    #[verifier::loop_isolation(false)]
    loop
        invariant
            start <= j <= len,
            int_end(s@, j as int) == int_end(s@, start as int),
            match acc {
                Some(v) => v as int == int_val(s@, start as int, j as int) && v >= 0,
                None => int_val(s@, start as int, j as int) > i64::MAX,
            },
        decreases len - j,
    {
        if j == len {
            return (acc, j);
        }
        let c = s.get_char(j);
        let cc = c as u32;
        if !(48 <= cc && cc <= 57) {
            return (acc, j);
        }
        let d = (cc - 48) as i64;
        proof {
            lemma_int_end(s@, j as int);
            lemma_int_val_nonneg(s@, start as int, j as int);
        }
        acc = match acc {
            Some(v) => {
                proof {
                    crate::poly::num::lemma_div10(v as int, i64::MAX - d);
                }
                if v > (i64::MAX - d) / 10 {
                    None
                } else {
                    Some(v * 10 + d)
                }
            },
            None => None,
        };
        j = j + 1;
    }
}

/// Fold the variable factors of the text from `start` on into `mono`.
pub fn parse_vars(s: &str, start: usize, mono: &mut Monomial) -> (r: Result<(), ParseError>)
    requires
        start <= s@.len(),
    ensures
        match r {
            Ok(()) => vars_spec(s@, start as int, old(mono)@) == Result::<
                MonoModel,
                ParseError,
            >::Ok(final(mono)@),
            Err(e) => vars_spec(s@, start as int, old(mono)@) == Result::<
                MonoModel,
                ParseError,
            >::Err(e),
        },
{
    let len = s.unicode_len();
    let mut i = start;
    #[verifier::loop_isolation(false)]
    loop
        invariant
            start <= i <= len,
            vars_spec(s@, i as int, mono@) == vars_spec(s@, start as int, old(mono)@),
        decreases len - i,
    {
        if i == len {
            return Ok(());
        }
        let c = s.get_char(i);
        let cc = c as u32;
        if !(97 <= cc && cc < 97 + VARS as u32) {
            return Err(ParseError::Symbol);
        }
        let v = (cc - 97) as usize;
        let ghost m0 = mono@;
        if i + 1 < len && s.get_char(i + 1) as u32 == 94 {
            proof {
                lemma_int_end(s@, i + 2);
            }
            let (vo, j) = parse_int(s, i + 2);
            if j == i + 2 {
                return Err(ParseError::Overflow(OverflowError::Exponent));
            }
            match vo {
                None => {
                    return Err(ParseError::Overflow(OverflowError::Exponent));
                },
                Some(x) => {
                    if x > u16::MAX as i64 {
                        return Err(ParseError::Overflow(OverflowError::Exponent));
                    }
                    mono.exponents[v] = x as u16;
                    proof {
                        assert(mono@.exps =~= set_exp(m0, v as int, x as int).exps);
                    }
                    i = j;
                },
            }
        } else {
            mono.exponents[v] = 1;
            proof {
                assert(mono@.exps =~= set_exp(m0, v as int, 1).exps);
            }
            i = i + 1;
        }
    }
}

impl Monomial {

    /// The textual notation of this monomial.
    pub fn render(&self) -> (r: String)
        ensures
            r@ == mono_str(self@),
    {
        proof {
            reveal_strlit("^");
        }
        let mut out = render_i64(self.coefficient);
        let mut i: usize = 0;
        #[verifier::loop_isolation(false)]
        loop
            invariant
                i <= VARS,
                out@ + mono_vars_str(self@, i as int) == mono_str(self@),
            decreases VARS - i,
        {
            if i == VARS {
                proof {
                    assert(out@ + mono_vars_str(self@, i as int) =~= out@);
                }
                return out;
            }
            let ghost before = out@;
            let e = self.exponents[i];
            proof {
                assert(self.exponents@[i as int] as int == self@.exps[i as int]);
            }
            if e != 0 {
                out.append(letter_str(i));
                if e > 1 {
                    out.append("^");
                    let ds = render_u64(e as u64);
                    out.append(ds.as_str());
                }
            }
            proof {
                assert(out@ + mono_vars_str(self@, i + 1) =~= before + mono_vars_str(
                    self@,
                    i as int,
                ));
            }
            i = i + 1;
        }
    }

    /// Parse a monomial from its textual notation.
    pub fn parse(s: &str) -> (r: Result<Monomial, ParseError>)
        ensures
            match r {
                Ok(m) => parse_mono(s@) == Result::<MonoModel, ParseError>::Ok(m@),
                Err(e) => parse_mono(s@) == Result::<MonoModel, ParseError>::Err(e),
            },
    {
        let len = s.unicode_len();
        if len == 0 {
            return Err(ParseError::Empty);
        }
        let c = s.get_char(0);
        let cc = c as u32;
        if 48 <= cc && cc <= 57 {
            let (vo, j) = parse_int(s, 0);
            proof {
                lemma_int_end(s@, 0);
            }
            match vo {
                None => Err(ParseError::Overflow(OverflowError::Coefficient)),
                Some(v) => {
                    let mut m = Monomial::coefficient(v);
                    match parse_vars(s, j, &mut m) {
                        Ok(()) => Ok(m),
                        Err(e) => Err(e),
                    }
                },
            }
        } else {
            let mut m = Monomial::coefficient(1);
            proof {
                assert(m@ == identity());
            }
            match parse_vars(s, 0, &mut m) {
                Ok(()) => Ok(m),
                Err(e) => Err(e),
            }
        }
    }
}


/// The text of the variable factors of a monomial from slot `i` on:
/// the letter of each slot with a nonzero exponent, with `^` and the
/// exponent where it exceeds one.
pub open spec fn mono_vars_str(m: MonoModel, i: int) -> Seq<char>
    decreases VARS - i,
{
    if i < 0 || i >= VARS {
        Seq::empty()
    } else {
        (if m.exps[i] != 0 {
            seq![letter_char(i)] + (if m.exps[i] > 1 {
                seq!['^'] + dec_str(m.exps[i] as nat)
            } else {
                Seq::empty()
            })
        } else {
            Seq::empty()
        }) + mono_vars_str(m, i + 1)
    }
}

/// The text of a monomial: its coefficient, then its variable factors.
pub open spec fn mono_str(m: MonoModel) -> Seq<char> {
    int_str(m.coef) + mono_vars_str(m, 0)
}


/// Decimal renderings are nonempty strings of digits.
proof fn lemma_dec_str_digits(n: nat)
    ensures
        dec_str(n).len() >= 1,
        forall|i: int| 0 <= i < dec_str(n).len() ==> is_digit(#[trigger] dec_str(n)[i]),
    decreases n,
{
    if n < 10 {
        assert(is_digit(dec_str(n)[0]));
    } else {
        lemma_dec_str_digits(n / 10);
        assert(is_digit(digit_char((n % 10) as int)));
        assert forall|i: int| 0 <= i < dec_str(n).len() implies is_digit(
            #[trigger] dec_str(n)[i],
        ) by {
            if i < dec_str(n / 10).len() {
                assert(dec_str(n)[i] == dec_str(n / 10)[i]);
            } else {
                assert(dec_str(n)[i] == digit_char((n % 10) as int));
            }
        }
    }
}

/// A digit run bounded by a non-digit ends exactly at that bound.
proof fn lemma_int_end_range(s: Seq<char>, p: int, q: int)
    requires
        0 <= p <= q <= s.len(),
        forall|t: int| p <= t < q ==> is_digit(#[trigger] s[t]),
        q == s.len() || !is_digit(s[q]),
    ensures
        int_end(s, p) == q,
    decreases q - p,
{
    if p < q {
        lemma_int_end_range(s, p + 1, q);
    }
}

/// Scanning an embedded decimal rendering recovers the number.
proof fn lemma_int_val_embedded(s: Seq<char>, p: int, n: nat)
    requires
        0 <= p,
        p + dec_str(n).len() <= s.len(),
        forall|k: int| 0 <= k < dec_str(n).len() ==> s[p + k] == #[trigger] dec_str(n)[k],
    ensures
        int_val(s, p, p + dec_str(n).len() as int) == n,
    decreases n,
{
    if n < 10 {
        assert(s[p] == dec_str(n)[0]);
        assert(int_val(s, p, p) == 0);
        assert(int_val(s, p, p + 1) == digit_val(digit_char(n as int)));
    } else {
        let l2 = dec_str(n / 10).len() as int;
        assert forall|k: int| 0 <= k < l2 implies s[p + k] == #[trigger] dec_str(n / 10)[k] by {
            assert(dec_str(n)[k] == dec_str(n / 10)[k]);
        }
        lemma_int_val_embedded(s, p, n / 10);
        assert(s[p + dec_str(n).len() - 1] == dec_str(n)[dec_str(n).len() - 1]);
        assert(dec_str(n)[dec_str(n).len() - 1] == digit_char((n % 10) as int));
        assert(int_val(s, p, p + dec_str(n).len() as int) == int_val(s, p, p + l2) * 10
            + digit_val(digit_char((n % 10) as int)));
    }
}

/// The rendering of variable factors is empty or starts with a letter.
pub proof fn lemma_mono_vars_str_head(m: MonoModel, i: int)
    requires
        0 <= i,
    ensures
        mono_vars_str(m, i).len() == 0 || is_var(mono_vars_str(m, i)[0]),
    decreases VARS - i,
{
    if i < VARS {
        if m.exps[i] != 0 {
            assert(is_var(letter_char(i)));
            assert(mono_vars_str(m, i)[0] == letter_char(i));
        } else {
            lemma_mono_vars_str_head(m, i + 1);
            assert(mono_vars_str(m, i) =~= mono_vars_str(m, i + 1));
        }
    }
}

proof fn lemma_vars_roundtrip(s: Seq<char>, p: int, m: MonoModel, acc: MonoModel, i: int)
    requires
        m.wf(),
        acc.exps.len() == VARS,
        0 <= i <= VARS,
        forall|k: int| 0 <= k < i ==> #[trigger] acc.exps[k] == m.exps[k],
        forall|k: int| i <= k < VARS ==> #[trigger] acc.exps[k] == 0,
        0 <= p <= s.len(),
        s.subrange(p, s.len() as int) == mono_vars_str(m, i),
    ensures
        vars_spec(s, p, acc) == Result::<MonoModel, ParseError>::Ok(
            MonoModel { coef: acc.coef, exps: m.exps },
        ),
    decreases VARS - i,
{
    let rest = s.subrange(p, s.len() as int);
    if i == VARS {
        assert(rest.len() == 0);
        assert(p == s.len());
        assert(acc.exps =~= m.exps);
        assert(vars_spec(s, p, acc) == Result::<MonoModel, ParseError>::Ok(acc));
    } else if m.exps[i] == 0 {
        assert(mono_vars_str(m, i) =~= mono_vars_str(m, i + 1));
        lemma_vars_roundtrip(s, p, m, acc, i + 1);
    } else {
        let e = m.exps[i];
        assert(0 < e <= u16::MAX);
        let piece = if e > 1 {
            seq![letter_char(i)] + seq!['^'] + dec_str(e as nat)
        } else {
            seq![letter_char(i)]
        };
        assert(mono_vars_str(m, i) == (seq![letter_char(i)] + (if e > 1 {
            seq!['^'] + dec_str(e as nat)
        } else {
            Seq::<char>::empty()
        })) + mono_vars_str(m, i + 1));
        assert(mono_vars_str(m, i) =~= piece + mono_vars_str(m, i + 1));
        assert(s[p] == rest[0]);
        assert(rest[0] == letter_char(i));
        assert(is_var(letter_char(i)));
        assert(var_idx(letter_char(i)) == i);
        lemma_mono_vars_str_head(m, i + 1);
        let acc2 = set_exp(acc, i, e);
        assert(acc2.exps.len() == VARS);
        assert(forall|k: int| 0 <= k < i + 1 ==> #[trigger] acc2.exps[k] == m.exps[k]);
        assert(forall|k: int| i + 1 <= k < VARS ==> #[trigger] acc2.exps[k] == 0);
        if e == 1 {
            // a bare letter: the next character, if any, is a letter too
            if p + 1 < s.len() {
                assert(s[p + 1] == rest[1]);
                assert(rest[1] == mono_vars_str(m, i + 1)[0]);
                assert(is_var(s[p + 1]));
                assert(s[p + 1] as u32 != 94);
            }
            let tail = mono_vars_str(m, i + 1);
            assert(rest.len() == 1 + tail.len());
            assert forall|k: int| 0 <= k < tail.len() implies s.subrange(p + 1, s.len() as int)[k]
                == tail[k] by {
                assert(s.subrange(p + 1, s.len() as int)[k] == s[p + 1 + k]);
                assert(rest[1 + k] == s[p + 1 + k]);
                assert(rest[1 + k] == (piece + tail)[1 + k]);
                assert((piece + tail)[1 + k] == tail[k]);
            }
            assert(s.subrange(p + 1, s.len() as int) =~= tail);
            lemma_vars_roundtrip(s, p + 1, m, acc2, i + 1);
        } else {
            // letter, caret, digits
            assert(s[p + 1] == rest[1]);
            assert(rest[1] == '^');
            assert(s[p + 1] as u32 == 94);
            lemma_dec_str_digits(e as nat);
            let dl = dec_str(e as nat).len() as int;
            let q = p + 2 + dl;
            assert forall|k: int| 0 <= k < dl implies s[p + 2 + k] == #[trigger] dec_str(
                e as nat,
            )[k] by {
                assert(s[p + 2 + k] == rest[2 + k]);
                assert(rest[2 + k] == piece[2 + k]);
                assert(piece[2 + k] == dec_str(e as nat)[k]);
            }
            assert forall|t: int| p + 2 <= t < q implies is_digit(#[trigger] s[t]) by {
                assert(s[t] == dec_str(e as nat)[t - p - 2]);
            }
            if q < s.len() {
                assert(s[q] == rest[2 + dl]);
                assert(rest[2 + dl] == mono_vars_str(m, i + 1)[0]);
                assert(is_var(s[q]));
                assert(!is_digit(s[q]));
            }
            lemma_int_end_range(s, p + 2, q);
            lemma_int_val_embedded(s, p + 2, e as nat);
            assert(int_end(s, p + 2) == q);
            assert(q != p + 2);
            assert(int_val(s, p + 2, q) == e);
            let tail = mono_vars_str(m, i + 1);
            assert(rest.len() == 2 + dl + tail.len());
            assert forall|k: int| 0 <= k < tail.len() implies s.subrange(q, s.len() as int)[k]
                == tail[k] by {
                assert(s.subrange(q, s.len() as int)[k] == s[q + k]);
                assert(rest[2 + dl + k] == s[q + k]);
                assert(rest[2 + dl + k] == (piece + tail)[2 + dl + k]);
                assert((piece + tail)[2 + dl + k] == tail[k]);
            }
            assert(s.subrange(q, s.len() as int) =~= tail);
            lemma_vars_roundtrip(s, q, m, acc2, i + 1);
        }
    }
}

/// Rendering a monomial with a non-negative coefficient and parsing
/// the text back returns the same monomial.
pub proof fn lemma_render_parse_mono(m: MonoModel)
    requires
        m.wf(),
        m.coef >= 0,
    ensures
        parse_mono(mono_str(m)) == Result::<MonoModel, ParseError>::Ok(m),
{
    let s = mono_str(m);
    let c = m.coef as nat;
    assert(int_str(m.coef) == dec_str(c));
    lemma_dec_str_digits(c);
    let dl = dec_str(c).len() as int;
    assert(s.len() == dl + mono_vars_str(m, 0).len());
    assert forall|k: int| 0 <= k < dl implies s[k] == #[trigger] dec_str(c)[k] by {
        assert(s[k] == (dec_str(c) + mono_vars_str(m, 0))[k]);
    }
    assert(is_digit(s[0]));
    lemma_mono_vars_str_head(m, 0);
    if dl < s.len() {
        assert(s[dl] == mono_vars_str(m, 0)[0]);
        assert(is_var(s[dl]));
        assert(!is_digit(s[dl]));
    }
    lemma_int_end_range(s, 0, dl);
    lemma_int_val_embedded(s, 0, c);
    assert(int_end(s, 0) == dl);
    assert(int_val(s, 0, dl) == c);
    assert(c <= i64::MAX as nat);
    let acc = coef_only(m.coef);
    assert(acc.exps.len() == VARS);
    assert(forall|k: int| 0 <= k < VARS ==> #[trigger] acc.exps[k] == 0);
    assert(s.subrange(dl, s.len() as int) =~= mono_vars_str(m, 0));
    lemma_vars_roundtrip(s, dl, m, acc, 0);
    assert(MonoModel { coef: acc.coef, exps: m.exps } == m);
}

impl Default for Monomial {
    /// The identity monomial.
    fn default() -> (r: Self)
        ensures
            r@ == identity(),
    {
        Self::coefficient(1)
    }
}

} // verus!
