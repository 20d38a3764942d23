//! Like-term combination: group monomials by identical exponent
//! vector, sum each group's coefficients into its first-seen leader,
//! and mark the other group members consumed.  Only monomials with a
//! strictly positive coefficient take part.

use crate::poly::mono::{MonoModel, Monomial, VARS};
use crate::poly::Polynomial;
use vstd::prelude::*;

verus! {

/// Index of the first monomial value with a positive coefficient at
/// or after `i`; the length if there is none.
pub open spec fn find_pos(s: Seq<MonoModel>, i: int) -> int
    decreases s.len() - i,
{
    if i < 0 || i >= s.len() {
        s.len() as int
    } else if s[i].coef > 0 {
        i
    } else {
        find_pos(s, i + 1)
    }
}

/// Sum of the positive coefficients at or after `i` whose exponent
/// vector is `e`.
pub open spec fn group_coef(s: Seq<MonoModel>, i: int, e: Seq<int>) -> int
    decreases s.len() - i,
{
    if i < 0 || i >= s.len() {
        0
    } else {
        (if s[i].coef > 0 && s[i].exps == e {
            s[i].coef
        } else {
            0
        }) + group_coef(s, i + 1, e)
    }
}

/// `s` with every positive-coefficient value carrying exponents `e`
/// marked consumed (coefficient zeroed).
pub open spec fn clear_group(s: Seq<MonoModel>, e: Seq<int>) -> Seq<MonoModel> {
    s.map_values(
        |m: MonoModel|
            if m.coef > 0 && m.exps == e {
                MonoModel { coef: 0, exps: m.exps }
            } else {
                m
            },
    )
}

/// Number of positive coefficients at or after `i`.
pub open spec fn pos_count(s: Seq<MonoModel>, i: int) -> nat
    decreases s.len() - i,
{
    if i < 0 || i >= s.len() {
        0
    } else {
        (if s[i].coef > 0 {
            1nat
        } else {
            0nat
        }) + pos_count(s, i + 1)
    }
}

/// Sum of all positive coefficients at or after `i`.
pub open spec fn pos_sum(s: Seq<MonoModel>, i: int) -> int
    decreases s.len() - i,
{
    if i < 0 || i >= s.len() {
        0
    } else {
        (if s[i].coef > 0 {
            s[i].coef
        } else {
            0
        }) + pos_sum(s, i + 1)
    }
}

proof fn lemma_pos_count_clear(s: Seq<MonoModel>, e: Seq<int>, i: int)
    requires
        0 <= i,
    ensures
        pos_count(clear_group(s, e), i) <= pos_count(s, i),
        (exists|j: int| i <= j < s.len() && s[j].coef > 0 && s[j].exps == e) ==> pos_count(
            clear_group(s, e),
            i,
        ) < pos_count(s, i),
    decreases s.len() - i,
{
    let c = clear_group(s, e);
    assert(c.len() == s.len());
    if i >= s.len() {
    } else {
        lemma_pos_count_clear(s, e, i + 1);
        if s[i].coef > 0 && s[i].exps == e {
            assert(c[i].coef == 0);
        } else {
            assert(c[i] == s[i]);
            if exists|j: int| i <= j < s.len() && s[j].coef > 0 && s[j].exps == e {
                let j = choose|j: int| i <= j < s.len() && s[j].coef > 0 && s[j].exps == e;
                assert(j != i);
                assert(exists|j2: int| i + 1 <= j2 < s.len() && s[j2].coef > 0 && s[j2].exps == e);
            }
        }
    }
}

/// Coefficient sums of groups are never negative.
proof fn lemma_group_coef_nonneg(s: Seq<MonoModel>, i: int, e: Seq<int>)
    ensures
        group_coef(s, i, e) >= 0,
    decreases s.len() - i,
{
    if i < 0 || i >= s.len() {
    } else {
        lemma_group_coef_nonneg(s, i + 1, e);
    }
}

/// A group's coefficient sum is bounded by the sum of all positive
/// coefficients.
proof fn lemma_group_le_pos_sum(s: Seq<MonoModel>, i: int, e: Seq<int>)
    ensures
        group_coef(s, i, e) <= pos_sum(s, i),
    decreases s.len() - i,
{
    if i < 0 || i >= s.len() {
    } else {
        lemma_group_le_pos_sum(s, i + 1, e);
    }
}

/// The sum of positive coefficients only shrinks as the start moves in.
proof fn lemma_pos_sum_mono(s: Seq<MonoModel>, i: int, j: int)
    requires
        0 <= i <= j,
    ensures
        pos_sum(s, j) <= pos_sum(s, i),
        pos_sum(s, j) >= 0,
    decreases j - i,
{
    if j >= s.len() {
        lemma_pos_sum_nonneg(s, j);
        lemma_pos_sum_nonneg(s, i);
    } else if i < j {
        lemma_pos_sum_mono(s, i + 1, j);
    } else {
        lemma_pos_sum_nonneg(s, j);
    }
}

proof fn lemma_pos_sum_nonneg(s: Seq<MonoModel>, i: int)
    ensures
        pos_sum(s, i) >= 0,
    decreases s.len() - i,
{
    if i < 0 || i >= s.len() {
    } else {
        lemma_pos_sum_nonneg(s, i + 1);
    }
}

/// Marking a group consumed never raises the sum of positive
/// coefficients.
proof fn lemma_pos_sum_clear(s: Seq<MonoModel>, e: Seq<int>, i: int)
    requires
        0 <= i,
    ensures
        pos_sum(clear_group(s, e), i) <= pos_sum(s, i),
    decreases s.len() - i,
{
    let c = clear_group(s, e);
    if i >= s.len() {
    } else {
        lemma_pos_sum_clear(s, e, i + 1);
        if s[i].coef > 0 && s[i].exps == e {
            assert(c[i].coef == 0);
        } else {
            assert(c[i] == s[i]);
        }
    }
}

/// The group sum reads nothing before its start position.
proof fn lemma_group_coef_frame(s1: Seq<MonoModel>, s2: Seq<MonoModel>, i: int, e: Seq<int>)
    requires
        s1.len() == s2.len(),
        forall|t: int| i <= t < s1.len() ==> s1[t] == s2[t],
    ensures
        group_coef(s1, i, e) == group_coef(s2, i, e),
    decreases s1.len() - i,
{
    if i < 0 || i >= s1.len() {
    } else {
        lemma_group_coef_frame(s1, s2, i + 1, e);
    }
}

/// The monomial values of a polynomial with all like terms combined:
/// one value per distinct exponent vector among positive-coefficient
/// monomials, in first-occurrence order, carrying the group's summed
/// coefficient.
pub open spec fn combine_model(s: Seq<MonoModel>) -> Seq<MonoModel>
    decreases pos_count(s, 0),
    via combine_model_decreases
{
    let i = find_pos(s, 0);
    if i >= s.len() {
        Seq::empty()
    } else {
        seq![MonoModel { coef: group_coef(s, i, s[i].exps), exps: s[i].exps }] + combine_model(
            clear_group(s, s[i].exps),
        )
    }
}

#[via_fn]
proof fn combine_model_decreases(s: Seq<MonoModel>) {
    let i = find_pos(s, 0);
    if i < s.len() {
        lemma_find_pos(s, 0);
        lemma_pos_count_clear(s, s[i].exps, 0);
    }
}

/// The first positive position is where the spec says it is.
pub proof fn lemma_find_pos(s: Seq<MonoModel>, i: int)
    requires
        0 <= i <= s.len(),
    ensures
        i <= find_pos(s, i) <= s.len(),
        find_pos(s, i) < s.len() ==> s[find_pos(s, i)].coef > 0,
        forall|j: int| i <= j < find_pos(s, i) ==> (#[trigger] s[j]).coef <= 0,
    decreases s.len() - i,
{
    if i >= s.len() {
    } else if s[i].coef > 0 {
    } else {
        lemma_find_pos(s, i + 1);
    }
}


/// Positive-coefficient monomial values, in order.
pub open spec fn positives(s: Seq<MonoModel>, i: int) -> Seq<MonoModel>
    decreases s.len() - i,
{
    if i < 0 || i >= s.len() {
        Seq::empty()
    } else {
        (if s[i].coef > 0 {
            seq![s[i]]
        } else {
            Seq::empty()
        }) + positives(s, i + 1)
    }
}

/// No two positive monomial values share an exponent vector.
pub open spec fn distinct_pos(s: Seq<MonoModel>) -> bool {
    forall|i: int, j: int|
        0 <= i < j < s.len() && s[i].coef > 0 && s[j].coef > 0 ==> (#[trigger] s[i]).exps != (
        #[trigger] s[j]).exps
}

/// No positive monomial value carries the exponent vector `e`.
pub open spec fn no_pos_exps(s: Seq<MonoModel>, e: Seq<int>) -> bool {
    forall|i: int| 0 <= i < s.len() ==> !((#[trigger] s[i]).coef > 0 && s[i].exps == e)
}

proof fn lemma_positives_none(s: Seq<MonoModel>, i: int)
    requires
        0 <= i,
        find_pos(s, i) == s.len(),
    ensures
        positives(s, i) == Seq::<MonoModel>::empty(),
    decreases s.len() - i,
{
    if i < s.len() {
        lemma_positives_none(s, i + 1);
        assert(positives(s, i) =~= positives(s, i + 1));
    }
}

proof fn lemma_positives_skip(s: Seq<MonoModel>, i: int, j: int)
    requires
        0 <= i <= j,
        forall|t: int| i <= t < j ==> (#[trigger] s[t]).coef <= 0,
    ensures
        positives(s, i) == positives(s, j),
    decreases j - i,
{
    if i < j && i < s.len() {
        lemma_positives_skip(s, i + 1, j);
        assert(positives(s, i) =~= positives(s, i + 1));
    } else if i < j {
        lemma_positives_skip(s, i + 1, j);
        assert(positives(s, i) =~= positives(s, i + 1));
    }
}

proof fn lemma_group_coef_none(s: Seq<MonoModel>, i: int, e: Seq<int>)
    requires
        forall|t: int| i <= t < s.len() ==> !((#[trigger] s[t]).coef > 0 && s[t].exps == e),
    ensures
        group_coef(s, i, e) == 0,
    decreases s.len() - i,
{
    if 0 <= i && i < s.len() {
        lemma_group_coef_none(s, i + 1, e);
    } else if i < 0 {
        lemma_group_coef_none(s, 0, e);
        assert(group_coef(s, i, e) == group_coef(s, i + 1, e));
    }
}

proof fn lemma_positives_frame(s1: Seq<MonoModel>, s2: Seq<MonoModel>, i: int)
    requires
        s1.len() == s2.len(),
        forall|t: int| i <= t < s1.len() ==> s1[t] == s2[t],
    ensures
        positives(s1, i) == positives(s2, i),
    decreases s1.len() - i,
{
    if 0 <= i && i < s1.len() {
        lemma_positives_frame(s1, s2, i + 1);
        assert(positives(s1, i) =~= positives(s2, i));
    } else if i < 0 {
        lemma_positives_frame(s1, s2, 0);
        assert(positives(s1, i) =~= positives(s2, i));
    }
}

/// Marking a consumed group leaves every other monomial value alone.
proof fn lemma_clear_distinct(s: Seq<MonoModel>, e: Seq<int>)
    requires
        distinct_pos(s),
    ensures
        distinct_pos(clear_group(s, e)),
        no_pos_exps(clear_group(s, e), e),
{
    let c = clear_group(s, e);
    assert forall|i: int| 0 <= i < c.len() implies !((#[trigger] c[i]).coef > 0 && c[i].exps == e) by {
        if s[i].coef > 0 && s[i].exps == e {
            assert(c[i].coef == 0);
        } else {
            assert(c[i] == s[i]);
        }
    }
    assert forall|i: int, j: int|
        0 <= i < j < c.len() && c[i].coef > 0 && c[j].coef > 0 implies (#[trigger] c[i]).exps != (
    #[trigger] c[j]).exps by {
        assert(c[i] == s[i] || c[i].coef == 0);
        assert(c[j] == s[j] || c[j].coef == 0);
    }
}

/// The combined form of a polynomial whose positive monomials carry
/// pairwise distinct exponent vectors is exactly its positive
/// monomials, unchanged and in order.
pub proof fn lemma_combine_distinct(s: Seq<MonoModel>)
    requires
        distinct_pos(s),
    ensures
        combine_model(s) == positives(s, 0),
    decreases pos_count(s, 0),
{
    let i = find_pos(s, 0);
    lemma_find_pos(s, 0);
    if i >= s.len() {
        lemma_positives_none(s, 0);
    } else {
        let e = s[i].exps;
        assert forall|t: int| i + 1 <= t < s.len() implies !((#[trigger] s[t]).coef > 0
            && s[t].exps == e) by {
            if s[t].coef > 0 && s[t].exps == e {
                assert(s[i].coef > 0 && s[t].coef > 0 && s[i].exps == s[t].exps);
            }
        }
        lemma_group_coef_none(s, i + 1, e);
        assert(group_coef(s, i, e) == s[i].coef);
        assert(MonoModel { coef: group_coef(s, i, e), exps: e } == s[i]);
        let c = clear_group(s, e);
        lemma_clear_distinct(s, e);
        lemma_pos_count_clear(s, e, 0);
        lemma_combine_distinct(c);
        // positives of the cleared sequence: entries before `i` are
        // non-positive, `i` is consumed, and later entries are unchanged.
        assert forall|t: int| i + 1 <= t < s.len() implies c[t] == s[t] by {
            if s[t].coef > 0 && s[t].exps == e {
                assert(false);
            }
        }
        assert forall|t: int| 0 <= t < i implies (#[trigger] c[t]).coef <= 0 by {
            assert(s[t].coef <= 0);
            assert(c[t] == s[t] || c[t].coef == 0);
        }
        lemma_positives_skip(c, 0, i);
        assert(c[i].coef == 0);
        assert(positives(c, i) =~= positives(c, i + 1));
        lemma_positives_frame(c, s, i + 1);
        lemma_positives_skip(s, 0, i);
        assert(positives(s, i) =~= seq![s[i]] + positives(s, i + 1));
        assert(combine_model(s) =~= positives(s, 0));
    }
}

/// Every combined monomial is positive, and no two share an exponent
/// vector.
pub proof fn lemma_combine_props(s: Seq<MonoModel>)
    ensures
        forall|t: int|
            0 <= t < combine_model(s).len() ==> (#[trigger] combine_model(s)[t]).coef > 0,
        distinct_pos(combine_model(s)),
    decreases pos_count(s, 0),
{
    let i = find_pos(s, 0);
    lemma_find_pos(s, 0);
    if i >= s.len() {
    } else {
        let e = s[i].exps;
        let c = clear_group(s, e);
        lemma_pos_count_clear(s, e, 0);
        lemma_combine_props(c);
        lemma_group_coef_nonneg(s, i + 1, e);
        assert(group_coef(s, i, e) >= s[i].coef);
        assert forall|t: int| 0 <= t < c.len() implies !((#[trigger] c[t]).coef > 0 && c[t].exps
            == e) by {
            if s[t].coef > 0 && s[t].exps == e {
                assert(c[t].coef == 0);
            } else {
                assert(c[t] == s[t]);
            }
        }
        lemma_combine_no_exps(c, e);
        let out = combine_model(s);
        assert(out == seq![MonoModel { coef: group_coef(s, i, e), exps: e }] + combine_model(c));
        assert forall|a: int, b: int|
            0 <= a < b < out.len() && out[a].coef > 0 && out[b].coef > 0 implies (
        #[trigger] out[a]).exps != (#[trigger] out[b]).exps by {
            if a == 0 {
                assert(out[b] == combine_model(c)[b - 1]);
            } else {
                assert(out[a] == combine_model(c)[a - 1]);
                assert(out[b] == combine_model(c)[b - 1]);
            }
        }
    }
}

/// A polynomial without positive monomials of exponent vector `e`
/// combines to one without them either.
proof fn lemma_combine_no_exps(s: Seq<MonoModel>, e: Seq<int>)
    requires
        no_pos_exps(s, e),
    ensures
        forall|t: int|
            0 <= t < combine_model(s).len() ==> (#[trigger] combine_model(s)[t]).exps != e,
    decreases pos_count(s, 0),
{
    let i = find_pos(s, 0);
    lemma_find_pos(s, 0);
    if i >= s.len() {
    } else {
        let e1 = s[i].exps;
        assert(s[i].coef > 0);
        assert(e1 != e);
        let c = clear_group(s, e1);
        lemma_pos_count_clear(s, e1, 0);
        assert forall|t: int| 0 <= t < c.len() implies !((#[trigger] c[t]).coef > 0 && c[t].exps
            == e) by {
            if s[t].coef > 0 && s[t].exps == e1 {
                assert(c[t].coef == 0);
            } else {
                assert(c[t] == s[t]);
            }
        }
        lemma_combine_no_exps(c, e);
        assert forall|t: int| 0 <= t < combine_model(s).len() implies (
        #[trigger] combine_model(s)[t]).exps != e by {
            if t > 0 {
                assert(combine_model(s)[t] == combine_model(c)[t - 1]);
            }
        }
    }
}

/// Positive monomials pass through unchanged.
proof fn lemma_positives_id(s: Seq<MonoModel>, i: int)
    requires
        0 <= i <= s.len(),
        forall|t: int| 0 <= t < s.len() ==> (#[trigger] s[t]).coef > 0,
    ensures
        positives(s, i) == s.subrange(i, s.len() as int),
    decreases s.len() - i,
{
    if i < s.len() {
        lemma_positives_id(s, i + 1);
        assert(positives(s, i) =~= s.subrange(i, s.len() as int));
    } else {
        assert(positives(s, i) =~= s.subrange(i, s.len() as int));
    }
}


/// A polynomial of positive monomials with pairwise distinct exponent
/// vectors is already combined: combining changes nothing.
pub proof fn lemma_combine_canonical(s: Seq<MonoModel>)
    requires
        forall|t: int| 0 <= t < s.len() ==> (#[trigger] s[t]).coef > 0,
        distinct_pos(s),
    ensures
        combine_model(s) == s,
{
    lemma_combine_distinct(s);
    lemma_positives_id(s, 0);
    assert(s.subrange(0, s.len() as int) =~= s);
}

/// Combining like terms is idempotent: a second pass over an already
/// combined polynomial changes nothing.
pub proof fn lemma_combine_idempotent(s: Seq<MonoModel>)
    ensures
        combine_model(combine_model(s)) == combine_model(s),
{
    let c = combine_model(s);
    lemma_combine_props(s);
    lemma_combine_distinct(c);
    lemma_positives_id(c, 0);
    assert(c.subrange(0, c.len() as int) =~= c);
}

/// The one-shot sequence of combined terms drawn from a polynomial.
pub struct Combine {
    pub(crate) poly: Polynomial,
}

impl View for Combine {
    type V = Seq<MonoModel>;

    closed spec fn view(&self) -> Seq<MonoModel> {
        self.poly@
    }
}

/// The two monomials carry the same exponent vector.
fn same_exponents(a: &Monomial, b: &Monomial) -> (r: bool)
    ensures
        r == (a@.exps == b@.exps),
{
    let mut k: usize = 0;
    let mut eq = true;
    #[verifier::loop_isolation(false)]
    while k < VARS
        invariant
            k <= VARS,
            eq == (forall|j: int| 0 <= j < k ==> a@.exps[j] == b@.exps[j]),
        decreases VARS - k,
    {
        proof {
            assert(a.exponents@[k as int] as int == a@.exps[k as int]);
            assert(b.exponents@[k as int] as int == b@.exps[k as int]);
        }
        if a.exponents[k] != b.exponents[k] {
            eq = false;
        }
        k += 1;
    }
    proof {
        if eq {
            assert(a@.exps =~= b@.exps);
        }
    }
    eq
}

impl Combine {
    /// Produce the next combined term: the first unconsumed positive
    /// monomial, with the coefficients of all later like terms folded
    /// in, all of them marked consumed.
    pub fn next(&mut self) -> (r: Option<Monomial>)
        requires
            pos_sum(old(self)@, 0) <= i64::MAX,
        ensures
            match r {
                Option::None => {
                    &&& final(self)@ == old(self)@
                    &&& find_pos(old(self)@, 0) == old(self)@.len()
                    &&& combine_model(old(self)@) == Seq::<MonoModel>::empty()
                },
                Option::Some(m) => {
                    &&& find_pos(old(self)@, 0) < old(self)@.len()
                    &&& m@.exps == old(self)@[find_pos(old(self)@, 0)].exps
                    &&& m@.coef == group_coef(old(self)@, find_pos(old(self)@, 0), m@.exps)
                    &&& final(self)@ == clear_group(old(self)@, m@.exps)
                    &&& combine_model(old(self)@) == seq![m@] + combine_model(final(self)@)
                    &&& pos_sum(final(self)@, 0) <= pos_sum(old(self)@, 0)
                },
            },
    {
        let ghost orig = self@;
        let len = self.poly.monomials.len();
        let mut k: usize = 0;
        #[verifier::loop_isolation(false)]
        while k < len && self.poly.monomials[k].coefficient <= 0
            invariant
                k <= len,
                find_pos(orig, 0) == find_pos(orig, k as int),
            decreases len - k,
        {
            proof {
                assert(self.poly@[k as int] == orig[k as int]);
            }
            k += 1;
        }
        if k == len {
            proof {
                assert(find_pos(orig, 0) == orig.len());
            }
            return None;
        }
        let idx = k;
        proof {
            assert(self.poly@[idx as int] == orig[idx as int]);
            assert(find_pos(orig, idx as int) == idx);
            lemma_find_pos(orig, 0);
        }
        let mut acc = self.poly.monomials[idx];
        let ghost e = acc@.exps;
        {
            let mut z = self.poly.monomials[idx];
            z.coefficient = 0;
            let ghost prev = self.poly@;
            self.poly.monomials.set(idx, z);
            proof {
                assert(self.poly@ =~= prev.update(idx as int, z@));
            }
        }
        let mut j: usize = idx + 1;
        proof {
            lemma_group_coef_nonneg(orig, idx + 1, e);
            lemma_group_le_pos_sum(orig, idx as int, e);
            lemma_pos_sum_mono(orig, 0, idx as int);
        }
        #[verifier::loop_isolation(false)]
        while j < len
            invariant
                idx < j <= len,
                len == orig.len(),
                self.poly@.len() == orig.len(),
                acc@.exps == e,
                e == orig[idx as int].exps,
                acc@.coef == group_coef(orig, idx as int, e) - group_coef(orig, j as int, e),
                acc@.coef >= 0,
                forall|t: int|
                    0 <= t < j ==> #[trigger] self.poly@[t] == (if orig[t].coef > 0
                        && orig[t].exps == e {
                        MonoModel { coef: 0, exps: orig[t].exps }
                    } else {
                        orig[t]
                    }),
                forall|t: int| j <= t < len ==> #[trigger] self.poly@[t] == orig[t],
            decreases len - j,
        {
            let m = self.poly.monomials[j];
            proof {
                assert(m@ == self.poly@[j as int]);
                assert(m@ == orig[j as int]);
                lemma_group_coef_nonneg(orig, j + 1, e);
                lemma_group_le_pos_sum(orig, idx as int, e);
            }
            if m.coefficient > 0 && same_exponents(&m, &acc) {
                proof {
                    assert(group_coef(orig, j as int, e) == orig[j as int].coef + group_coef(
                        orig,
                        j + 1,
                        e,
                    ));
                }
                acc.coefficient = acc.coefficient + m.coefficient;
                let mut z = m;
                z.coefficient = 0;
                let ghost prev = self.poly@;
                self.poly.monomials.set(j, z);
                proof {
                    assert(self.poly@ =~= prev.update(j as int, z@));
                }
            } else {
                proof {
                    assert(group_coef(orig, j as int, e) == group_coef(orig, j + 1, e));
                }
            }
            j += 1;
        }
        proof {
            assert(group_coef(orig, len as int, e) == 0);
            assert(self.poly@ =~= clear_group(orig, e));
            lemma_pos_sum_clear(orig, e, 0);
            assert(combine_model(orig) == seq![acc@] + combine_model(clear_group(orig, e)));
        }
        Some(acc)
    }
}

impl Polynomial {
    /// Turn this polynomial into the sequence of its combined terms.
    pub fn combine(self) -> (c: Combine)
        ensures
            c@ == self@,
    {
        Combine { poly: self }
    }

    /// Combine like terms into a new polynomial.
    pub fn into_combined(self) -> (r: Polynomial)
        requires
            pos_sum(self@, 0) <= i64::MAX,
        ensures
            r@ == combine_model(self@),
    {
        let ghost orig = self@;
        let mut c = self.combine();
        let mut out: Vec<Monomial> = Vec::new();
        let mut done = false;
        #[verifier::loop_isolation(false)]
        while !done
            invariant
                pos_sum(c@, 0) <= i64::MAX,
                combine_model(orig) == out@.map_values(|m: Monomial| m@) + combine_model(c@),
                done ==> combine_model(c@) == Seq::<MonoModel>::empty(),
            decreases combine_model(c@).len() + (if done {
                0int
            } else {
                1int
            }),
        {
            let ghost before = c@;
            match c.next() {
                Some(m) => {
                    proof {
                        assert((out@.push(m)).map_values(|mm: Monomial| mm@) =~= out@.map_values(
                            |mm: Monomial| mm@,
                        ).push(m@));
                        assert(out@.map_values(|mm: Monomial| mm@).push(m@) + combine_model(c@)
                            =~= out@.map_values(|mm: Monomial| mm@) + (seq![m@] + combine_model(
                            c@,
                        )));
                    }
                    out.push(m);
                },
                None => {
                    done = true;
                },
            }
        }
        proof {
            assert(combine_model(orig) =~= out@.map_values(|m: Monomial| m@));
        }
        Polynomial::new(out)
    }
}

} // verus!
