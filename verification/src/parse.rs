//! The parser: a tokenizer feeding a stateful grammar reducer that
//! emits one monomial per `+`-delimited summand.

pub mod items;

pub use items::{Item, ItemError, Items, Operator};

use crate::poly::mono::{
    coef_only, identity, mono_str, mono_vars_str, MonoModel, Monomial, OverflowError, ParseError,
    VARS,
};
use crate::poly::mono::{is_digit, is_var};
use crate::poly::combine::{combine_model, distinct_pos, lemma_combine_canonical};
use crate::poly::{poly_str, poly_tail_str, wf_seq, Polynomial};
use crate::render::{dec_str, int_str, letter_char};
use items::{lemma_tok_digits, tok_step, toks_from, State, TokStep};
use vstd::prelude::*;

verus! {

/// Progress of the grammar reducer: at the start of a summand, after
/// its leading integer, or inside a variable factor, possibly waiting
/// for the exponent that a `^` announced.
#[derive(Clone, Copy, Debug, PartialEq, Eq)]
pub enum PState {
    Init,
    Integer,
    Variable { var: u8, pow: bool },
}

/// The pending monomial's value, if one is being built.
pub open spec fn pend_model(mono: Option<Monomial>) -> Option<MonoModel> {
    match mono {
        Some(m) => Some(m@),
        None => None,
    }
}

/// `m` with the exponent of `var` defaulted to one if it is unset.
pub open spec fn default_exp(m: MonoModel, var: int) -> MonoModel {
    if m.exps[var] == 0 {
        MonoModel { coef: m.coef, exps: m.exps.update(var, 1) }
    } else {
        m
    }
}

/// `m` with `n` added to the exponent of `var`.
pub open spec fn add_exp(m: MonoModel, var: int, n: int) -> MonoModel {
    MonoModel { coef: m.coef, exps: m.exps.update(var, m.exps[var] + n) }
}

/// One emitted monomial in front of the rest of a parse.
pub open spec fn cons_result(m: MonoModel, r: Result<Seq<MonoModel>, ParseError>) -> Result<
    Seq<MonoModel>,
    ParseError,
> {
    match r {
        Ok(t) => Ok(seq![m] + t),
        Err(e) => Err(e),
    }
}

/// The grammar reducer over a token stream: one monomial value per
/// `+`-delimited summand, or the first error.  A tokenizer error at
/// the end of the stream is reported as the parse error matching the
/// reducer's state there.
pub open spec fn reduce(
    toks: Seq<Item>,
    terr: Option<ItemError>,
    st: PState,
    pend: Option<MonoModel>,
) -> Result<Seq<MonoModel>, ParseError>
    decreases toks.len(),
{
    if toks.len() == 0 {
        match terr {
            Some(ItemError::Symbol) => Err(ParseError::Symbol),
            Some(ItemError::Overflow) => Err(
                ParseError::Overflow(
                    match st {
                        PState::Variable { var: _, pow: true } => OverflowError::Exponent,
                        _ => OverflowError::Coefficient,
                    },
                ),
            ),
            None => match st {
                PState::Init => Ok(Seq::empty()),
                PState::Integer => Ok(seq![pend.unwrap()]),
                PState::Variable { var, pow } => if pow {
                    Err(ParseError::Syntax)
                } else {
                    Ok(seq![default_exp(pend.unwrap(), var as int)])
                },
            },
        }
    } else {
        let t = toks[0];
        let rest = toks.subrange(1, toks.len() as int);
        match st {
            PState::Init => match t {
                Item::Integer(n) => reduce(rest, terr, PState::Integer, Some(coef_only(n as int))),
                Item::Variable(v) => reduce(
                    rest,
                    terr,
                    PState::Variable { var: v, pow: false },
                    Some(identity()),
                ),
                Item::Operator(_) => Err(ParseError::Syntax),
            },
            PState::Integer => match t {
                Item::Variable(v) => reduce(rest, terr, PState::Variable { var: v, pow: false }, pend),
                Item::Operator(Operator::Add) => cons_result(
                    pend.unwrap(),
                    reduce(rest, terr, PState::Init, None),
                ),
                _ => Err(ParseError::Syntax),
            },
            PState::Variable { var, pow } => match t {
                Item::Integer(n) => if pow {
                    if n < 0 || pend.unwrap().exps[var as int] + n > u16::MAX {
                        Err(ParseError::Overflow(OverflowError::Exponent))
                    } else {
                        reduce(
                            rest,
                            terr,
                            PState::Integer,
                            Some(add_exp(pend.unwrap(), var as int, n as int)),
                        )
                    }
                } else {
                    Err(ParseError::Syntax)
                },
                Item::Operator(Operator::Pow) => if pow {
                    Err(ParseError::Syntax)
                } else {
                    reduce(rest, terr, PState::Variable { var, pow: true }, pend)
                },
                Item::Operator(Operator::Add) => if pow {
                    Err(ParseError::Syntax)
                } else {
                    cons_result(
                        default_exp(pend.unwrap(), var as int),
                        reduce(rest, terr, PState::Init, None),
                    )
                },
                Item::Variable(v2) => if pow {
                    Err(ParseError::Syntax)
                } else {
                    reduce(
                        rest,
                        terr,
                        PState::Variable { var: v2, pow: false },
                        Some(default_exp(pend.unwrap(), var as int)),
                    )
                },
            },
        }
    }
}

/// The monomial values a piece of text stands for, or its first
/// parse error.
pub open spec fn parse_poly(s: Seq<char>) -> Result<Seq<MonoModel>, ParseError> {
    let t = toks_from(s, 0, State::Init);
    reduce(t.0, t.1, PState::Init, None)
}


/// The tokens of the variable factors of a monomial from slot `i` on.
pub open spec fn mono_toks(m: MonoModel, i: int) -> Seq<Item>
    decreases VARS - i,
{
    if i < 0 || i >= VARS {
        Seq::empty()
    } else {
        (if m.exps[i] != 0 {
            seq![Item::Variable(i as u8)] + (if m.exps[i] > 1 {
                seq![Item::Operator(Operator::Pow), Item::Integer(m.exps[i] as i64)]
            } else {
                Seq::empty()
            })
        } else {
            Seq::empty()
        }) + mono_toks(m, i + 1)
    }
}

/// The tokens of a whole monomial: its coefficient, then its factors.
pub open spec fn mono_full_toks(m: MonoModel) -> Seq<Item> {
    seq![Item::Integer(m.coef as i64)] + mono_toks(m, 0)
}

/// The tokens of the monomials of a polynomial from position `k` on,
/// each preceded by a plus sign.
pub open spec fn tail_toks(ms: Seq<MonoModel>, k: int) -> Seq<Item>
    decreases ms.len() - k,
{
    if k < 1 || k >= ms.len() {
        Seq::empty()
    } else {
        seq![Item::Operator(Operator::Add)] + mono_full_toks(ms[k]) + tail_toks(ms, k + 1)
    }
}

/// The tokens of a polynomial's monomials from position `k` on.
pub open spec fn poly_toks_from(ms: Seq<MonoModel>, k: int) -> Seq<Item>
    decreases ms.len() - k,
{
    if k < 0 || k >= ms.len() {
        Seq::empty()
    } else {
        mono_full_toks(ms[k]) + tail_toks(ms, k + 1)
    }
}

/// Equal pulls mean equal streams.
proof fn lemma_toks_from_step_eq(s: Seq<char>, a: int, sta: State, b: int, stb: State)
    requires
        tok_step(s, a, sta) == tok_step(s, b, stb),
    ensures
        toks_from(s, a, sta) == toks_from(s, b, stb),
{
    match tok_step(s, a, sta) {
        TokStep::Fail(_) => {},
        TokStep::End => {},
        TokStep::Tok(it, i2, st2) => {
            assert(toks_from(s, a, sta) == (seq![it] + toks_from(s, i2, st2).0, toks_from(
                s,
                i2,
                st2,
            ).1));
        },
    }
}

/// At a boundary — the end of the text, a space, or a letter — a
/// pending numeral is emitted and tokenization continues as if from a
/// clean state.
proof fn lemma_toks_intflush(s: Seq<char>, q: int, v: i64)
    requires
        0 <= q <= s.len(),
        q == s.len() || s[q] as u32 == 32 || is_var(s[q]),
    ensures
        toks_from(s, q, State::Integer(v)).0 == seq![Item::Integer(v)] + toks_from(
            s,
            q,
            State::Init,
        ).0,
        toks_from(s, q, State::Integer(v)).1 == toks_from(s, q, State::Init).1,
{
    if q == s.len() {
        assert(tok_step(s, q, State::Integer(v)) == TokStep::Tok(Item::Integer(v), q, State::Init));
    } else if s[q] as u32 == 32 {
        assert(!is_digit(s[q]));
        assert(tok_step(s, q, State::Integer(v)) == TokStep::Tok(
            Item::Integer(v),
            q + 1,
            State::Init,
        ));
        assert(tok_step(s, q, State::Init) == tok_step(s, q + 1, State::Init));
        lemma_toks_from_step_eq(s, q, State::Init, q + 1, State::Init);
        assert(toks_from(s, q, State::Integer(v)).0 == seq![Item::Integer(v)] + toks_from(
            s,
            q + 1,
            State::Init,
        ).0);
    } else {
        let c = s[q];
        assert(!is_digit(c));
        assert(c as u32 != 32);
        let it = items::char_item(c)->Some_0;
        assert(items::char_item(c) == Some(it));
        assert(tok_step(s, q, State::Integer(v)) == TokStep::Tok(
            Item::Integer(v),
            q + 1,
            State::Stash(it),
        ));
        assert(tok_step(s, q + 1, State::Stash(it)) == TokStep::Tok(it, q + 1, State::Init));
        assert(tok_step(s, q, State::Init) == TokStep::Tok(it, q + 1, State::Init));
        assert(toks_from(s, q + 1, State::Stash(it)).0 == seq![it] + toks_from(
            s,
            q + 1,
            State::Init,
        ).0);
        assert(toks_from(s, q, State::Init).0 == seq![it] + toks_from(s, q + 1, State::Init).0);
        assert(toks_from(s, q, State::Integer(v)).0 == seq![Item::Integer(v)] + toks_from(
            s,
            q + 1,
            State::Stash(it),
        ).0);
    }
}

/// Tokenizing the rendered variable factors of a monomial yields
/// their tokens, then whatever follows the rendering.
proof fn lemma_toks_vars(s: Seq<char>, p: int, m: MonoModel, i: int)
    requires
        m.wf(),
        0 <= i <= VARS,
        0 <= p,
        p + mono_vars_str(m, i).len() <= s.len(),
        s.subrange(p, p + mono_vars_str(m, i).len() as int) == mono_vars_str(m, i),
        p + mono_vars_str(m, i).len() == s.len() || s[p + mono_vars_str(m, i).len()] as u32 == 32,
    ensures
        toks_from(s, p, State::Init).0 == mono_toks(m, i) + toks_from(
            s,
            p + mono_vars_str(m, i).len(),
            State::Init,
        ).0,
        toks_from(s, p, State::Init).1 == toks_from(
            s,
            p + mono_vars_str(m, i).len(),
            State::Init,
        ).1,
    decreases VARS - i,
{
    let text = mono_vars_str(m, i);
    let ll = text.len() as int;
    if i == VARS {
        assert(text.len() == 0);
        assert(mono_toks(m, i) + toks_from(s, p, State::Init).0 =~= toks_from(
            s,
            p,
            State::Init,
        ).0);
    } else if m.exps[i] == 0 {
        assert(text =~= mono_vars_str(m, i + 1));
        assert(mono_toks(m, i) =~= mono_toks(m, i + 1));
        lemma_toks_vars(s, p, m, i + 1);
    } else {
        let e = m.exps[i];
        let tail = mono_vars_str(m, i + 1);
        let piece = if e > 1 {
            seq![letter_char(i)] + seq!['^'] + dec_str(e as nat)
        } else {
            seq![letter_char(i)]
        };
        assert(text =~= piece + tail);
        let ul = piece.len() as int;
        let q0 = p + ul;
        // the rendered suffix starting at q0 is exactly `tail`
        assert forall|k: int| 0 <= k < tail.len() implies s[q0 + k] == #[trigger] tail[k] by {
            assert(s[q0 + k] == s.subrange(p, p + ll)[ul + k]);
            assert(text[ul + k] == (piece + tail)[ul + k]);
        }
        assert(s.subrange(q0, q0 + tail.len() as int) =~= tail);
        // after this factor comes a letter, a space, or the end
        crate::poly::mono::lemma_mono_vars_str_head(m, i + 1);
        assert(q0 + tail.len() == s.len() || s[q0 + tail.len()] as u32 == 32);
        if tail.len() > 0 {
            assert(s[q0] == tail[0]);
            assert(is_var(s[q0]));
        }
        assert(q0 == s.len() || s[q0] as u32 == 32 || is_var(s[q0]));
        // the letter of this factor
        assert(s[p] == s.subrange(p, p + ll)[0]);
        assert(text[0] == letter_char(i));
        assert(is_var(letter_char(i)));
        assert(!is_digit(letter_char(i)));
        assert(letter_char(i) as u32 != 32);
        assert(items::char_item(letter_char(i)) == Some(Item::Variable(i as u8)));
        assert(tok_step(s, p, State::Init) == TokStep::Tok(
            Item::Variable(i as u8),
            p + 1,
            State::Init,
        ));
        assert(toks_from(s, p, State::Init).0 == seq![Item::Variable(i as u8)] + toks_from(
            s,
            p + 1,
            State::Init,
        ).0);
        if e > 1 {
            // caret and exponent digits
            assert(s[p + 1] == s.subrange(p, p + ll)[1]);
            assert(text[1] == '^');
            assert(!is_digit('^'));
            assert(('^' as u32) != 32);
            assert(items::char_item('^') == Some(Item::Operator(Operator::Pow)));
            assert(tok_step(s, p + 1, State::Init) == TokStep::Tok(
                Item::Operator(Operator::Pow),
                p + 2,
                State::Init,
            ));
            assert(toks_from(s, p + 1, State::Init).0 == seq![Item::Operator(Operator::Pow)]
                + toks_from(s, p + 2, State::Init).0);
            let dl = dec_str(e as nat).len() as int;
            assert(q0 == p + 2 + dl);
            assert forall|k: int| 0 <= k < dl implies s[p + 2 + k] == #[trigger] dec_str(
                e as nat,
            )[k] by {
                assert(s[p + 2 + k] == s.subrange(p, p + ll)[2 + k]);
                assert(text[2 + k] == (piece + tail)[2 + k]);
                assert(piece[2 + k] == dec_str(e as nat)[k]);
            }
            lemma_tok_digits(s, p + 2, e as nat);
            lemma_toks_from_step_eq(s, p + 2, State::Init, q0, State::Integer(e as i64));
            lemma_toks_intflush(s, q0, e as i64);
            lemma_toks_vars(s, q0, m, i + 1);
            assert(toks_from(s, p, State::Init).0 =~= mono_toks(m, i) + toks_from(
                s,
                p + ll,
                State::Init,
            ).0);
        } else {
            lemma_toks_vars(s, p + 1, m, i + 1);
            assert(toks_from(s, p, State::Init).0 =~= mono_toks(m, i) + toks_from(
                s,
                p + ll,
                State::Init,
            ).0);
        }
    }
}

/// Tokenizing a rendered monomial yields its tokens, then whatever
/// follows the rendering.
proof fn lemma_toks_mono(s: Seq<char>, p: int, m: MonoModel)
    requires
        m.wf(),
        m.coef >= 0,
        0 <= p,
        p + mono_str(m).len() <= s.len(),
        s.subrange(p, p + mono_str(m).len() as int) == mono_str(m),
        p + mono_str(m).len() == s.len() || s[p + mono_str(m).len()] as u32 == 32,
    ensures
        toks_from(s, p, State::Init).0 == mono_full_toks(m) + toks_from(
            s,
            p + mono_str(m).len(),
            State::Init,
        ).0,
        toks_from(s, p, State::Init).1 == toks_from(
            s,
            p + mono_str(m).len(),
            State::Init,
        ).1,
{
    let text = mono_str(m);
    let ll = text.len() as int;
    let c = m.coef as nat;
    assert(int_str(m.coef) == dec_str(c));
    let dl = dec_str(c).len() as int;
    let vtext = mono_vars_str(m, 0);
    assert(text == dec_str(c) + vtext);
    let q0 = p + dl;
    assert forall|k: int| 0 <= k < dl implies s[p + k] == #[trigger] dec_str(c)[k] by {
        assert(s[p + k] == s.subrange(p, p + ll)[k]);
        assert(text[k] == dec_str(c)[k]);
    }
    lemma_tok_digits(s, p, c);
    lemma_toks_from_step_eq(s, p, State::Init, q0, State::Integer(c as i64));
    assert forall|k: int| 0 <= k < vtext.len() implies s[q0 + k] == #[trigger] vtext[k] by {
        assert(s[q0 + k] == s.subrange(p, p + ll)[dl + k]);
        assert(text[dl + k] == vtext[k]);
    }
    assert(s.subrange(q0, q0 + vtext.len() as int) =~= vtext);
    crate::poly::mono::lemma_mono_vars_str_head(m, 0);
    if vtext.len() > 0 {
        assert(s[q0] == vtext[0]);
        assert(is_var(s[q0]));
    }
    assert(q0 == s.len() || s[q0] as u32 == 32 || is_var(s[q0]));
    lemma_toks_intflush(s, q0, c as i64);
    lemma_toks_vars(s, q0, m, 0);
    assert(toks_from(s, p, State::Init).0 =~= mono_full_toks(m) + toks_from(
        s,
        p + ll,
        State::Init,
    ).0);
}

/// Tokenizing the rendered monomials of a polynomial from position
/// `k` on yields their tokens and runs cleanly off the end.
proof fn lemma_toks_poly(s: Seq<char>, p: int, ms: Seq<MonoModel>, k: int)
    requires
        wf_seq(ms),
        forall|t: int| 0 <= t < ms.len() ==> (#[trigger] ms[t]).coef >= 0,
        0 <= k < ms.len(),
        0 <= p <= s.len(),
        s.subrange(p, s.len() as int) == mono_str(ms[k]) + poly_tail_str(ms, k + 1),
    ensures
        toks_from(s, p, State::Init).0 == poly_toks_from(ms, k),
        toks_from(s, p, State::Init).1 is None,
    decreases ms.len() - k,
{
    let text = s.subrange(p, s.len() as int);
    let mtext = mono_str(ms[k]);
    let ml = mtext.len() as int;
    let ttext = poly_tail_str(ms, k + 1);
    assert(text == mtext + ttext);
    assert(text.len() == ml + ttext.len());
    assert(p + ml <= s.len());
    assert forall|t: int| 0 <= t < ml implies s[p + t] == #[trigger] mtext[t] by {
        assert(s.subrange(p, s.len() as int)[t] == s[p + t]);
        assert(text[t] == (mtext + ttext)[t]);
        assert((mtext + ttext)[t] == mtext[t]);
    }
    assert(s.subrange(p, p + ml) =~= mtext);
    let q = p + ml;
    if k + 1 >= ms.len() {
        assert(ttext.len() == 0);
        assert(q == s.len());
        lemma_toks_mono(s, p, ms[k]);
        assert(tok_step(s, q, State::Init) == TokStep::End);
        assert(toks_from(s, q, State::Init).0 == Seq::<Item>::empty());
        assert(tail_toks(ms, k + 1) == Seq::<Item>::empty());
        assert(poly_toks_from(ms, k) =~= mono_full_toks(ms[k]) + Seq::<Item>::empty());
        assert(toks_from(s, p, State::Init).0 =~= poly_toks_from(ms, k));
    } else {
        assert(ttext == seq![' ', '+', ' '] + mono_str(ms[k + 1]) + poly_tail_str(ms, k + 2));
        assert(s[q] == text[ml]);
        assert(text[ml] == ttext[0]);
        assert(ttext[0] == ' ');
        lemma_toks_mono(s, p, ms[k]);
        // skip the separator: space, plus, space
        assert(s[q + 1] == text[ml + 1]);
        assert(ttext[1] == '+');
        assert(s[q + 2] == text[ml + 2]);
        assert(ttext[2] == ' ');
        assert(!is_digit(' ') && (' ' as u32) == 32);
        assert(!is_digit('+') && ('+' as u32) == 43);
        assert(items::char_item('+') == Some(Item::Operator(Operator::Add)));
        assert(tok_step(s, q, State::Init) == tok_step(s, q + 1, State::Init));
        lemma_toks_from_step_eq(s, q, State::Init, q + 1, State::Init);
        assert(tok_step(s, q + 1, State::Init) == TokStep::Tok(
            Item::Operator(Operator::Add),
            q + 2,
            State::Init,
        ));
        assert(toks_from(s, q + 1, State::Init).0 == seq![Item::Operator(Operator::Add)]
            + toks_from(s, q + 2, State::Init).0);
        assert(tok_step(s, q + 2, State::Init) == tok_step(s, q + 3, State::Init));
        lemma_toks_from_step_eq(s, q + 2, State::Init, q + 3, State::Init);
        // the rest of the text is the rendering from k + 1 on
        assert forall|t: int| 0 <= t < s.len() - q - 3 implies #[trigger] s.subrange(
            q + 3,
            s.len() as int,
        )[t] == (mono_str(ms[k + 1]) + poly_tail_str(ms, k + 2))[t] by {
            assert(s.subrange(q + 3, s.len() as int)[t] == s[q + 3 + t]);
            assert(s[q + 3 + t] == text[ml + 3 + t]);
            assert(text[ml + 3 + t] == ttext[3 + t]);
            assert(ttext[3 + t] == (mono_str(ms[k + 1]) + poly_tail_str(ms, k + 2))[t]);
        }
        assert(s.subrange(q + 3, s.len() as int) =~= mono_str(ms[k + 1]) + poly_tail_str(
            ms,
            k + 2,
        ));
        lemma_toks_poly(s, q + 3, ms, k + 1);
        assert(tail_toks(ms, k + 1) =~= seq![Item::Operator(Operator::Add)] + poly_toks_from(
            ms,
            k + 1,
        ));
        assert(toks_from(s, p, State::Init).0 =~= poly_toks_from(ms, k));
    }
}


/// The pending monomial matches `m` on every slot before `i` and is
/// still unset from `i` on.
spec fn vars_consistent(p: MonoModel, m: MonoModel, i: int) -> bool {
    &&& p.exps.len() == VARS
    &&& p.coef == m.coef
    &&& forall|k: int| 0 <= k < i ==> #[trigger] p.exps[k] == m.exps[k]
    &&& forall|k: int| i <= k < VARS ==> #[trigger] p.exps[k] == 0
}

/// Feeding a monomial's factor tokens from slot `i` on to the
/// reducer completes the pending monomial to exactly `m` and emits it
/// at the following plus sign or at the end of the stream.
proof fn lemma_reduce_mono_vars(
    m: MonoModel,
    i: int,
    st: PState,
    pend: MonoModel,
    tail: Seq<Item>,
    terr: Option<ItemError>,
)
    requires
        m.wf(),
        0 <= i <= VARS,
        match st {
            PState::Integer => vars_consistent(pend, m, i),
            PState::Variable { var, pow } => !pow && (var as int) < VARS as int
                && vars_consistent(default_exp(pend, var as int), m, i),
            PState::Init => false,
        },
        tail.len() == 0 ==> terr is None,
        tail.len() > 0 ==> tail[0] == Item::Operator(Operator::Add),
    ensures
        reduce(mono_toks(m, i) + tail, terr, st, Some(pend)) == (if tail.len() == 0 {
            Result::<Seq<MonoModel>, ParseError>::Ok(seq![m])
        } else {
            cons_result(
                m,
                reduce(tail.subrange(1, tail.len() as int), terr, PState::Init, None),
            )
        }),
    decreases VARS - i,
{
    let tk = mono_toks(m, i) + tail;
    if i == VARS {
        assert(tk =~= tail);
        let done = match st {
            PState::Variable { var, pow } => default_exp(pend, var as int),
            _ => pend,
        };
        assert(done.exps =~= m.exps);
        assert(done == m);
        if tail.len() == 0 {
            assert(reduce(tk, terr, st, Some(pend)) == Result::<Seq<MonoModel>, ParseError>::Ok(
                seq![done],
            ));
        } else {
            assert(tk[0] == Item::Operator(Operator::Add));
            assert(reduce(tk, terr, st, Some(pend)) == cons_result(
                done,
                reduce(tk.subrange(1, tk.len() as int), terr, PState::Init, None),
            ));
        }
    } else if m.exps[i] == 0 {
        assert(mono_toks(m, i) =~= mono_toks(m, i + 1));
        match st {
            PState::Integer => {
                assert(vars_consistent(pend, m, i + 1));
            },
            PState::Variable { var, pow } => {
                assert(vars_consistent(default_exp(pend, var as int), m, i + 1));
            },
            PState::Init => {},
        }
        lemma_reduce_mono_vars(m, i + 1, st, pend, tail, terr);
    } else {
        let e = m.exps[i];
        let unit = if e > 1 {
            seq![
                Item::Variable(i as u8),
                Item::Operator(Operator::Pow),
                Item::Integer(e as i64),
            ]
        } else {
            seq![Item::Variable(i as u8)]
        };
        assert(mono_toks(m, i) =~= unit + mono_toks(m, i + 1));
        assert(tk =~= unit + (mono_toks(m, i + 1) + tail));
        assert(tk[0] == Item::Variable(i as u8));
        let pend2 = match st {
            PState::Variable { var, pow } => default_exp(pend, var as int),
            _ => pend,
        };
        assert(vars_consistent(pend2, m, i));
        let t1 = tk.subrange(1, tk.len() as int);
        assert(reduce(tk, terr, st, Some(pend)) == reduce(
            t1,
            terr,
            PState::Variable { var: i as u8, pow: false },
            Some(pend2),
        ));
        if e == 1 {
            assert(t1 =~= mono_toks(m, i + 1) + tail);
            assert(default_exp(pend2, i).exps =~= pend2.exps.update(i, 1));
            assert(vars_consistent(default_exp(pend2, i), m, i + 1));
            lemma_reduce_mono_vars(
                m,
                i + 1,
                PState::Variable { var: i as u8, pow: false },
                pend2,
                tail,
                terr,
            );
        } else {
            assert(t1[0] == Item::Operator(Operator::Pow));
            let t2 = t1.subrange(1, t1.len() as int);
            assert(reduce(t1, terr, PState::Variable { var: i as u8, pow: false }, Some(pend2))
                == reduce(t2, terr, PState::Variable { var: i as u8, pow: true }, Some(pend2)));
            assert(t2 =~= seq![Item::Integer(e as i64)] + (mono_toks(m, i + 1) + tail));
            assert(t2[0] == Item::Integer(e as i64));
            let n = e as i64;
            assert(n >= 0);
            assert(pend2.exps[i] == 0);
            assert(pend2.exps[i] + n <= u16::MAX);
            let t3 = t2.subrange(1, t2.len() as int);
            let pend3 = add_exp(pend2, i, n as int);
            assert(reduce(t2, terr, PState::Variable { var: i as u8, pow: true }, Some(pend2))
                == reduce(t3, terr, PState::Integer, Some(pend3)));
            assert(t3 =~= mono_toks(m, i + 1) + tail);
            assert(pend3.exps == pend2.exps.update(i, pend2.exps[i] + n));
            assert(vars_consistent(pend3, m, i + 1));
            lemma_reduce_mono_vars(m, i + 1, PState::Integer, pend3, tail, terr);
        }
    }
}

/// Feeding a whole monomial's tokens to a fresh reducer emits exactly
/// that monomial at the following plus sign or at the end.
proof fn lemma_reduce_mono(m: MonoModel, tail: Seq<Item>, terr: Option<ItemError>)
    requires
        m.wf(),
        tail.len() == 0 ==> terr is None,
        tail.len() > 0 ==> tail[0] == Item::Operator(Operator::Add),
    ensures
        reduce(mono_full_toks(m) + tail, terr, PState::Init, None) == (if tail.len() == 0 {
            Result::<Seq<MonoModel>, ParseError>::Ok(seq![m])
        } else {
            cons_result(
                m,
                reduce(tail.subrange(1, tail.len() as int), terr, PState::Init, None),
            )
        }),
{
    let tk = mono_full_toks(m) + tail;
    assert(tk[0] == Item::Integer(m.coef as i64));
    let t1 = tk.subrange(1, tk.len() as int);
    let pend = coef_only(m.coef as i64 as int);
    assert(reduce(tk, terr, PState::Init, None) == reduce(
        t1,
        terr,
        PState::Integer,
        Some(pend),
    ));
    assert(t1 =~= mono_toks(m, 0) + tail);
    assert(pend.coef == m.coef);
    assert(vars_consistent(pend, m, 0));
    lemma_reduce_mono_vars(m, 0, PState::Integer, pend, tail, terr);
}

/// Feeding the tokens of a polynomial's monomials from position `k`
/// on to a fresh reducer yields exactly those monomials.
proof fn lemma_reduce_poly(ms: Seq<MonoModel>, k: int)
    requires
        wf_seq(ms),
        0 <= k <= ms.len(),
    ensures
        reduce(poly_toks_from(ms, k), Option::<ItemError>::None, PState::Init, None)
            == Result::<Seq<MonoModel>, ParseError>::Ok(ms.subrange(k, ms.len() as int)),
    decreases ms.len() - k,
{
    if k >= ms.len() {
        assert(poly_toks_from(ms, k) =~= Seq::<Item>::empty());
        assert(ms.subrange(k, ms.len() as int) =~= Seq::<MonoModel>::empty());
    } else if k == ms.len() - 1 {
        assert(tail_toks(ms, k + 1) =~= Seq::<Item>::empty());
        assert(poly_toks_from(ms, k) == mono_full_toks(ms[k]) + tail_toks(ms, k + 1));
        lemma_reduce_mono(ms[k], tail_toks(ms, k + 1), Option::<ItemError>::None);
        assert(seq![ms[k]] =~= ms.subrange(k, ms.len() as int));
    } else {
        let tail = tail_toks(ms, k + 1);
        assert(tail =~= seq![Item::Operator(Operator::Add)] + poly_toks_from(ms, k + 1));
        assert(tail[0] == Item::Operator(Operator::Add));
        lemma_reduce_mono(ms[k], tail, Option::<ItemError>::None);
        assert(tail.subrange(1, tail.len() as int) =~= poly_toks_from(ms, k + 1));
        lemma_reduce_poly(ms, k + 1);
        assert(seq![ms[k]] + ms.subrange(k + 1, ms.len() as int) =~= ms.subrange(
            k,
            ms.len() as int,
        ));
    }
}

/// Rendering a polynomial whose coefficients are not negative and
/// parsing the text back returns the same polynomial.
pub proof fn lemma_render_parse_poly(ms: Seq<MonoModel>)
    requires
        wf_seq(ms),
        forall|t: int| 0 <= t < ms.len() ==> (#[trigger] ms[t]).coef >= 0,
    ensures
        parse_poly(poly_str(ms)) == Result::<Seq<MonoModel>, ParseError>::Ok(ms),
{
    let s = poly_str(ms);
    if ms.len() == 0 {
        assert(s.len() == 0);
        assert(tok_step(s, 0, State::Init) == TokStep::End);
        assert(toks_from(s, 0, State::Init) == (Seq::<Item>::empty(), Option::<ItemError>::None));
        assert(ms =~= Seq::<MonoModel>::empty());
    } else {
        assert(s == mono_str(ms[0]) + poly_tail_str(ms, 1));
        assert(s.subrange(0, s.len() as int) =~= s);
        lemma_toks_poly(s, 0, ms, 0);
        let t = toks_from(s, 0, State::Init);
        assert(t.0 == poly_toks_from(ms, 0));
        assert(t.1 == Option::<ItemError>::None);
        lemma_reduce_poly(ms, 0);
        assert(ms.subrange(0, ms.len() as int) =~= ms);
    }
}


/// A polynomial without redundant terms — every monomial positive, no
/// two sharing an exponent vector — survives a full round trip:
/// rendering it, parsing the text back, and combining like terms
/// returns it unchanged.
pub proof fn lemma_render_parse_combine(ms: Seq<MonoModel>)
    requires
        wf_seq(ms),
        forall|t: int| 0 <= t < ms.len() ==> (#[trigger] ms[t]).coef > 0,
        distinct_pos(ms),
    ensures
        parse_poly(poly_str(ms)) == Result::<Seq<MonoModel>, ParseError>::Ok(ms),
        combine_model(ms) == ms,
{
    lemma_render_parse_poly(ms);
    lemma_combine_canonical(ms);
}

/// The parser: a tokenizer plus the reducer's state and the monomial
/// being built.
pub struct Parser<'a> {
    pub items: Items<'a>,
    pub mono: Option<Monomial>,
    pub state: PState,
}

impl<'a> Parser<'a> {
    /// The tokenizer is well-formed, a summand in progress has a
    /// pending monomial, and a remembered variable names a real slot.
    pub open spec fn wf(self) -> bool {
        &&& self.items.wf()
        &&& match self.state {
            PState::Init => true,
            PState::Integer => self.mono is Some,
            PState::Variable { var, pow } => self.mono is Some && (var as int) < VARS as int,
        }
    }

    /// What the rest of this parse will produce.
    pub open spec fn remaining(self) -> Result<Seq<MonoModel>, ParseError> {
        let t = toks_from(self.items.s@, self.items.pos as int, self.items.state);
        reduce(t.0, t.1, self.state, pend_model(self.mono))
    }

    /// Tokens still to be consumed, with a tick for a summand whose
    /// final monomial has not gone out yet.
    pub open spec fn pending_work(self) -> int {
        2 * toks_from(self.items.s@, self.items.pos as int, self.items.state).0.len() + (
        if self.state is Init {
            0int
        } else {
            1int
        })
    }

    pub fn new(s: &'a str) -> (r: Self)
        ensures
            r.wf(),
            r.remaining() == parse_poly(s@),
    {
        Self { items: Items::new(s), mono: None, state: PState::Init }
    }

    /// Produce the next complete monomial of the input, the end of
    /// the input, or the first error of the parse.
    pub fn next(&mut self) -> (r: Result<Option<Monomial>, ParseError>)
        requires
            old(self).wf(),
        ensures
            final(self).wf(),
            match r {
                Ok(Some(m)) => {
                    &&& old(self).remaining() == cons_result(m@, final(self).remaining())
                    &&& final(self).pending_work() < old(self).pending_work()
                },
                Ok(None) => {
                    &&& old(self).remaining() == Result::<Seq<MonoModel>, ParseError>::Ok(
                        Seq::empty(),
                    )
                    &&& final(self).remaining() == Result::<Seq<MonoModel>, ParseError>::Ok(
                        Seq::empty(),
                    )
                },
                Err(e) => old(self).remaining() == Result::<Seq<MonoModel>, ParseError>::Err(e),
            },
    {
        let ghost entry = *self;
        #[verifier::loop_isolation(false)]
        loop
            invariant
                self.wf(),
                self.remaining() == entry.remaining(),
                self.pending_work() <= entry.pending_work(),
            decreases self.pending_work(),
        {
            let ghost pre = *self;
            let ghost t0 = toks_from(pre.items.s@, pre.items.pos as int, pre.items.state);
            let pulled = self.items.next();
            let ghost t1 = toks_from(self.items.s@, self.items.pos as int, self.items.state);
            match pulled {
                Err(e) => {
                    proof {
                        assert(t0 == (Seq::<Item>::empty(), Some(e)));
                    }
                    match e {
                        ItemError::Symbol => {
                            return Err(ParseError::Symbol);
                        },
                        ItemError::Overflow => {
                            match self.state {
                                PState::Variable { var: _, pow: true } => {
                                    return Err(ParseError::Overflow(OverflowError::Exponent));
                                },
                                _ => {
                                    return Err(ParseError::Overflow(OverflowError::Coefficient));
                                },
                            }
                        },
                    }
                },
                Ok(None) => {
                    proof {
                        assert(t0 == (Seq::<Item>::empty(), Option::<ItemError>::None));
                        assert(t1 == (Seq::<Item>::empty(), Option::<ItemError>::None));
                    }
                    match self.state {
                        PState::Init => {
                            return Ok(None);
                        },
                        PState::Integer => {
                            let m = match self.mono {
                                Some(m) => m,
                                None => {
                                    proof {
                                        assert(false);
                                    }
                                    Monomial::coefficient(0)
                                },
                            };
                            self.mono = None;
                            self.state = PState::Init;
                            return Ok(Some(m));
                        },
                        PState::Variable { var, pow } => {
                            if pow {
                                return Err(ParseError::Syntax);
                            }
                            let mut m = match self.mono {
                                Some(m) => m,
                                None => {
                                    proof {
                                        assert(false);
                                    }
                                    Monomial::coefficient(0)
                                },
                            };
                            let ghost m0 = m@;
                            if m.exponents[var as usize] == 0 {
                                m.exponents[var as usize] = 1;
                            }
                            proof {
                                assert(m@.exps =~= default_exp(m0, var as int).exps);
                            }
                            self.mono = None;
                            self.state = PState::Init;
                            return Ok(Some(m));
                        },
                    }
                },
                Ok(Some(it)) => {
                    proof {
                        match tok_step(pre.items.s@, pre.items.pos as int, pre.items.state) {
                            TokStep::Tok(it2, i2, st2) => {
                                assert(it2 == it);
                                assert(t0.0 == seq![it] + t1.0);
                                assert(t0.1 == t1.1);
                                assert(t0.0[0] == it);
                                assert(t0.0.len() == 1 + t1.0.len());
                                assert(t0.0.subrange(1, t0.0.len() as int) =~= t1.0);
                            },
                            _ => {
                                assert(false);
                            },
                        }
                    }
                    match self.state {
                        PState::Init => {
                            match it {
                                Item::Integer(n) => {
                                    self.mono = Some(Monomial::coefficient(n));
                                    self.state = PState::Integer;
                                },
                                Item::Variable(v) => {
                                    let m = Monomial::coefficient(1);
                                    proof {
                                        assert(m@ == identity());
                                    }
                                    self.mono = Some(m);
                                    self.state = PState::Variable { var: v, pow: false };
                                },
                                Item::Operator(_) => {
                                    return Err(ParseError::Syntax);
                                },
                            }
                        },
                        PState::Integer => {
                            match it {
                                Item::Variable(v) => {
                                    self.state = PState::Variable { var: v, pow: false };
                                },
                                Item::Operator(Operator::Add) => {
                                    let m = match self.mono {
                                        Some(m) => m,
                                        None => {
                                            proof {
                                                assert(false);
                                            }
                                            Monomial::coefficient(0)
                                        },
                                    };
                                    self.mono = None;
                                    self.state = PState::Init;
                                    return Ok(Some(m));
                                },
                                _ => {
                                    return Err(ParseError::Syntax);
                                },
                            }
                        },
                        PState::Variable { var, pow } => {
                            match it {
                                Item::Integer(n) => {
                                    if !pow {
                                        return Err(ParseError::Syntax);
                                    }
                                    let mut m = match self.mono {
                                        Some(m) => m,
                                        None => {
                                            proof {
                                                assert(false);
                                            }
                                            Monomial::coefficient(0)
                                        },
                                    };
                                    let ghost m0 = m@;
                                    let cur = m.exponents[var as usize];
                                    if n > (u16::MAX - cur) as i64 {
                                        return Err(ParseError::Overflow(OverflowError::Exponent));
                                    }
                                    m.exponents[var as usize] = cur + n as u16;
                                    proof {
                                        assert(m@.exps =~= add_exp(m0, var as int, n as int).exps);
                                    }
                                    self.mono = Some(m);
                                    self.state = PState::Integer;
                                },
                                Item::Operator(Operator::Pow) => {
                                    if pow {
                                        return Err(ParseError::Syntax);
                                    }
                                    self.state = PState::Variable { var, pow: true };
                                },
                                Item::Operator(Operator::Add) => {
                                    if pow {
                                        return Err(ParseError::Syntax);
                                    }
                                    let mut m = match self.mono {
                                        Some(m) => m,
                                        None => {
                                            proof {
                                                assert(false);
                                            }
                                            Monomial::coefficient(0)
                                        },
                                    };
                                    let ghost m0 = m@;
                                    if m.exponents[var as usize] == 0 {
                                        m.exponents[var as usize] = 1;
                                    }
                                    proof {
                                        assert(m@.exps =~= default_exp(m0, var as int).exps);
                                    }
                                    self.mono = None;
                                    self.state = PState::Init;
                                    return Ok(Some(m));
                                },
                                Item::Variable(v2) => {
                                    if pow {
                                        return Err(ParseError::Syntax);
                                    }
                                    let mut m = match self.mono {
                                        Some(m) => m,
                                        None => {
                                            proof {
                                                assert(false);
                                            }
                                            Monomial::coefficient(0)
                                        },
                                    };
                                    let ghost m0 = m@;
                                    if m.exponents[var as usize] == 0 {
                                        m.exponents[var as usize] = 1;
                                    }
                                    proof {
                                        assert(m@.exps =~= default_exp(m0, var as int).exps);
                                    }
                                    self.mono = Some(m);
                                    self.state = PState::Variable { var: v2, pow: false };
                                },
                            }
                        },
                    }
                },
            }
        }
    }
}

impl Polynomial {
    /// Parse a polynomial from its textual notation: the monomials of
    /// every `+`-delimited summand in source order, or the first
    /// error of the parse.
    pub fn parse(s: &str) -> (r: Result<Polynomial, ParseError>)
        ensures
            match r {
                Ok(p) => parse_poly(s@) == Result::<Seq<MonoModel>, ParseError>::Ok(p@),
                Err(e) => parse_poly(s@) == Result::<Seq<MonoModel>, ParseError>::Err(e),
            },
    {
        let mut parser = Parser::new(s);
        let mut out: Vec<Monomial> = Vec::new();
        proof {
            assert(Seq::<MonoModel>::empty() + parse_poly(s@)->Ok_0 =~= parse_poly(s@)->Ok_0);
            assert(out@.map_values(|m: Monomial| m@) =~= Seq::<MonoModel>::empty());
        }
        #[verifier::loop_isolation(false)]
        loop
            invariant
                parser.wf(),
                match parser.remaining() {
                    Ok(t) => parse_poly(s@) == Result::<Seq<MonoModel>, ParseError>::Ok(
                        out@.map_values(|m: Monomial| m@) + t,
                    ),
                    Err(e) => parse_poly(s@) == Result::<Seq<MonoModel>, ParseError>::Err(e),
                },
            decreases parser.pending_work(),
        {
            let ghost before = parser.remaining();
            match parser.next() {
                Ok(Some(m)) => {
                    proof {
                        if parser.remaining() is Ok {
                            let t = parser.remaining()->Ok_0;
                            assert((out@.push(m)).map_values(|mm: Monomial| mm@) =~= out@
                                .map_values(|mm: Monomial| mm@).push(m@));
                            assert(out@.map_values(|mm: Monomial| mm@).push(m@) + t =~= out@
                                .map_values(|mm: Monomial| mm@) + (seq![m@] + t));
                        }
                    }
                    out.push(m);
                },
                Ok(None) => {
                    proof {
                        assert(out@.map_values(|mm: Monomial| mm@) + Seq::<MonoModel>::empty()
                            =~= out@.map_values(|mm: Monomial| mm@));
                    }
                    return Ok(Polynomial::new(out));
                },
                Err(e) => {
                    return Err(e);
                },
            }
        }
    }
}

} // verus!
