//! The tokenizer: turns source text into a flat stream of lexical
//! items — integers, the operators `+` and `^`, and single-letter
//! variables — skipping spaces and reporting bad characters and
//! numerals too large for the machine.

use crate::poly::mono::{digit_val, is_digit, is_var, VARS};
use crate::poly::num::lemma_div10;
use crate::render::dec_str;
use vstd::prelude::*;
use vstd::string::StrSliceExecFns;

verus! {

/// The two operators of the grammar.
#[derive(Clone, Copy, Debug, PartialEq, Eq)]
pub enum Operator {
    Add,
    Pow,
}

/// One lexical item.
#[derive(Clone, Copy, Debug, PartialEq, Eq)]
pub enum Item {
    Integer(i64),
    Operator(Operator),
    Variable(u8),
}

/// What stops the tokenizer: a character outside the language, or a
/// numeral that exceeds the representable integer range.
#[derive(Clone, Copy, Debug, PartialEq, Eq)]
pub enum ItemError {
    Symbol,
    Overflow,
}

/// Progress of the tokenizer between two pulls: nothing pending, a
/// numeral being accumulated, or an item held back while a finished
/// numeral goes out first.
#[derive(Clone, Copy, Debug, PartialEq, Eq)]
pub enum State {
    Init,
    Integer(i64),
    Stash(Item),
}

/// The lexical item a single non-digit, non-space character stands
/// for, if any.
pub open spec fn char_item(c: char) -> Option<Item> {
    if c as u32 == 43 {
        Some(Item::Operator(Operator::Add))
    } else if c as u32 == 94 {
        Some(Item::Operator(Operator::Pow))
    } else if is_var(c) {
        Some(Item::Variable((c as u32 - 97) as u8))
    } else {
        None
    }
}

/// A lexical item the tokenizer can actually emit: variables name an
/// existing slot and numerals are never negative.
pub open spec fn item_wf(it: Item) -> bool {
    match it {
        Item::Variable(v) => (v as int) < VARS as int,
        Item::Integer(n) => n >= 0,
        Item::Operator(_) => true,
    }
}

/// Outcome of one pull on the tokenizer.
pub enum TokStep {
    Fail(ItemError),
    End,
    Tok(Item, int, State),
}

/// One pull on the tokenizer: from the text, a position and a state,
/// the next item together with the position and state after it, or
/// the end of the stream, or an error.
pub open spec fn tok_step(s: Seq<char>, i: int, st: State) -> TokStep
    decreases s.len() - i,
{
    match st {
        State::Stash(it) => TokStep::Tok(it, i, State::Init),
        _ => {
            if i < 0 || i >= s.len() {
                match st {
                    State::Integer(v) => TokStep::Tok(Item::Integer(v), i, State::Init),
                    _ => TokStep::End,
                }
            } else {
                let c = s[i];
                if is_digit(c) {
                    let d = digit_val(c);
                    match st {
                        State::Integer(v) => if v * 10 + d > i64::MAX {
                            TokStep::Fail(ItemError::Overflow)
                        } else {
                            tok_step(s, i + 1, State::Integer((v * 10 + d) as i64))
                        },
                        _ => tok_step(s, i + 1, State::Integer(d as i64)),
                    }
                } else if c as u32 == 32 {
                    match st {
                        State::Integer(v) => TokStep::Tok(Item::Integer(v), i + 1, State::Init),
                        _ => tok_step(s, i + 1, State::Init),
                    }
                } else {
                    match char_item(c) {
                        Option::None => TokStep::Fail(ItemError::Symbol),
                        Option::Some(it) => match st {
                            State::Integer(v) => TokStep::Tok(
                                Item::Integer(v),
                                i + 1,
                                State::Stash(it),
                            ),
                            _ => TokStep::Tok(it, i + 1, State::Init),
                        },
                    }
                }
            }
        },
    }
}


/// Scanning an embedded decimal rendering accumulates exactly the
/// number, leaving the tokenizer just past its digits.
pub proof fn lemma_tok_digits(s: Seq<char>, p: int, n: nat)
    requires
        0 <= p,
        p + dec_str(n).len() <= s.len(),
        forall|k: int| 0 <= k < dec_str(n).len() ==> s[p + k] == #[trigger] dec_str(n)[k],
        n <= i64::MAX as nat,
    ensures
        tok_step(s, p, State::Init) == tok_step(
            s,
            p + dec_str(n).len(),
            State::Integer(n as i64),
        ),
    decreases n,
{
    if n < 10 {
        assert(s[p] == dec_str(n)[0]);
        assert(dec_str(n)[0] == crate::render::digit_char(n as int));
        assert(is_digit(s[p]));
        assert(digit_val(s[p]) == n);
    } else {
        let l2 = dec_str(n / 10).len() as int;
        assert forall|k: int| 0 <= k < l2 implies s[p + k] == #[trigger] dec_str(n / 10)[k] by {
            assert(dec_str(n)[k] == dec_str(n / 10)[k]);
        }
        lemma_tok_digits(s, p, n / 10);
        let q = p + l2;
        assert(s[q] == dec_str(n)[dec_str(n).len() - 1]);
        assert(dec_str(n)[dec_str(n).len() - 1] == crate::render::digit_char((n % 10) as int));
        assert(is_digit(s[q]));
        assert(digit_val(s[q]) == n % 10);
        vstd::arithmetic::div_mod::lemma_fundamental_div_mod(n as int, 10);
        let v = (n / 10) as i64;
        assert(v as int == n / 10);
        assert(v as int * 10 + (n % 10) == n);
        assert(tok_step(s, q, State::Integer((n / 10) as i64)) == tok_step(
            s,
            q + 1,
            State::Integer(n as i64),
        ));
    }
}

/// Order on tokenizer states used to show that pulls make progress.
pub open spec fn state_rank(st: State) -> int {
    match st {
        State::Init => 0,
        State::Integer(_) => 1,
        State::Stash(_) => 2,
    }
}

/// Every emitted item advances the position, or lowers the state
/// rank while standing still.
pub proof fn lemma_tok_step_progress(s: Seq<char>, i: int, st: State)
    requires
        0 <= i <= s.len(),
    ensures
        match tok_step(s, i, st) {
            TokStep::Tok(_, i2, st2) => {
                &&& i <= i2 <= s.len()
                &&& (i2 > i || state_rank(st2) < state_rank(st))
            },
            _ => true,
        },
    decreases s.len() - i,
{
    match st {
        State::Stash(_) => {},
        _ => {
            if i >= s.len() {
            } else {
                let c = s[i];
                if is_digit(c) {
                    match st {
                        State::Integer(v) => {
                            if v * 10 + digit_val(c) > i64::MAX {
                            } else {
                                lemma_tok_step_progress(
                                    s,
                                    i + 1,
                                    State::Integer((v * 10 + digit_val(c)) as i64),
                                );
                            }
                        },
                        _ => {
                            lemma_tok_step_progress(s, i + 1, State::Integer(digit_val(c) as i64));
                        },
                    }
                } else if c as u32 == 32 {
                    match st {
                        State::Integer(_) => {},
                        _ => {
                            lemma_tok_step_progress(s, i + 1, State::Init);
                        },
                    }
                }
            }
        },
    }
}

/// From a well-formed tokenizer state, every emitted item is
/// well-formed and the state stays well-formed.
pub proof fn lemma_tok_step_wf(s: Seq<char>, i: int, st: State)
    requires
        match st {
            State::Integer(v) => v >= 0,
            State::Stash(it) => item_wf(it),
            State::Init => true,
        },
    ensures
        match tok_step(s, i, st) {
            TokStep::Tok(it, i2, st2) => item_wf(it) && match st2 {
                State::Integer(v) => v >= 0,
                State::Stash(it2) => item_wf(it2),
                State::Init => true,
            },
            _ => true,
        },
    decreases s.len() - i,
{
    match st {
        State::Stash(_) => {},
        _ => {
            if i < 0 || i >= s.len() {
            } else {
                let c = s[i];
                if is_digit(c) {
                    match st {
                        State::Integer(v) => {
                            if v * 10 + digit_val(c) > i64::MAX {
                            } else {
                                lemma_tok_step_wf(
                                    s,
                                    i + 1,
                                    State::Integer((v * 10 + digit_val(c)) as i64),
                                );
                            }
                        },
                        _ => {
                            lemma_tok_step_wf(s, i + 1, State::Integer(digit_val(c) as i64));
                        },
                    }
                } else if c as u32 == 32 {
                    match st {
                        State::Integer(_) => {},
                        _ => {
                            lemma_tok_step_wf(s, i + 1, State::Init);
                        },
                    }
                }
            }
        },
    }
}

/// The items of the rest of the text, with the error that cuts the
/// stream short, if one does.
pub open spec fn toks_from(s: Seq<char>, i: int, st: State) -> (Seq<Item>, Option<ItemError>)
    decreases s.len() - i, state_rank(st),
    via toks_from_decreases
{
    match tok_step(s, i, st) {
        TokStep::Fail(e) => (Seq::empty(), Some(e)),
        TokStep::End => (Seq::empty(), None),
        TokStep::Tok(it, i2, st2) => {
            let rest = toks_from(s, i2, st2);
            (seq![it] + rest.0, rest.1)
        },
    }
}

#[via_fn]
proof fn toks_from_decreases(s: Seq<char>, i: int, st: State) {
    if 0 <= i <= s.len() {
        lemma_tok_step_progress(s, i, st);
    } else if i > s.len() {
        assert(tok_step(s, i, st) is Tok ==> st is Stash || st is Integer);
    } else {
        assert(i < 0);
        assert(tok_step(s, i, st) is Tok ==> st is Stash || st is Integer);
    }
}

/// The tokenizer over a piece of text: a position and the pending
/// state between pulls.
pub struct Items<'a> {
    pub s: &'a str,
    pub pos: usize,
    pub state: State,
}

impl<'a> Items<'a> {
    /// The tokenizer's bookkeeping stays inside the text, a pending
    /// numeral is never negative, and a held-back item is one the
    /// tokenizer can emit.
    pub open spec fn wf(self) -> bool {
        &&& self.pos <= self.s@.len()
        &&& match self.state {
            State::Integer(v) => v >= 0,
            State::Stash(it) => item_wf(it),
            State::Init => true,
        }
    }

    pub fn new(s: &'a str) -> (r: Self)
        ensures
            r.s@ == s@,
            r.pos == 0,
            r.state == State::Init,
            r.wf(),
    {
        Self { s, pos: 0, state: State::Init }
    }

    /// Pull the next lexical item, or the end of the stream, or the
    /// error that stops tokenization.
    pub fn next(&mut self) -> (r: Result<Option<Item>, ItemError>)
        requires
            old(self).wf(),
        ensures
            final(self).wf(),
            final(self).s@ == old(self).s@,
            match tok_step(old(self).s@, old(self).pos as int, old(self).state) {
                TokStep::Fail(e) => r == Result::<Option<Item>, ItemError>::Err(e),
                TokStep::End => {
                    &&& r == Result::<Option<Item>, ItemError>::Ok(Option::<Item>::None)
                    &&& tok_step(final(self).s@, final(self).pos as int, final(self).state)
                        == TokStep::End
                },
                TokStep::Tok(it, i2, st2) => {
                    &&& r == Result::<Option<Item>, ItemError>::Ok(Some(it))
                    &&& final(self).pos == i2
                    &&& final(self).state == st2
                    &&& item_wf(it)
                },
            },
    {
        let ghost target = tok_step(self.s@, self.pos as int, self.state);
        proof {
            lemma_tok_step_wf(self.s@, self.pos as int, self.state);
        }
        let len = self.s.unicode_len();
        #[verifier::loop_isolation(false)]
        loop
            invariant
                self.wf(),
                self.s == old(self).s,
                len == self.s@.len(),
                tok_step(self.s@, self.pos as int, self.state) == target,
            decreases 2 * (self.s@.len() - self.pos) + state_rank(self.state),
        {
            match self.state {
                State::Stash(it) => {
                    self.state = State::Init;
                    return Ok(Some(it));
                },
                _ => {},
            }
            if self.pos == len {
                match self.state {
                    State::Integer(v) => {
                        self.state = State::Init;
                        return Ok(Some(Item::Integer(v)));
                    },
                    _ => {
                        return Ok(None);
                    },
                }
            }
            let c = self.s.get_char(self.pos);
            let cc = c as u32;
            if 48 <= cc && cc <= 57 {
                let d = (cc - 48) as i64;
                match self.state {
                    State::Integer(v) => {
                        proof {
                            lemma_div10(v as int, i64::MAX - d);
                        }
                        if v > (i64::MAX - d) / 10 {
                            return Err(ItemError::Overflow);
                        }
                        self.state = State::Integer(v * 10 + d);
                        self.pos = self.pos + 1;
                    },
                    _ => {
                        self.state = State::Integer(d);
                        self.pos = self.pos + 1;
                    },
                }
            } else if cc == 32 {
                match self.state {
                    State::Integer(v) => {
                        self.state = State::Init;
                        self.pos = self.pos + 1;
                        return Ok(Some(Item::Integer(v)));
                    },
                    _ => {
                        self.pos = self.pos + 1;
                    },
                }
            } else {
                let it = if cc == 43 {
                    Item::Operator(Operator::Add)
                } else if cc == 94 {
                    Item::Operator(Operator::Pow)
                } else if 97 <= cc && cc < 97 + VARS as u32 {
                    Item::Variable((cc - 97) as u8)
                } else {
                    return Err(ItemError::Symbol);
                };
                proof {
                    assert(char_item(self.s@[self.pos as int]) == Some(it));
                }
                match self.state {
                    State::Integer(v) => {
                        self.state = State::Stash(it);
                        self.pos = self.pos + 1;
                        return Ok(Some(Item::Integer(v)));
                    },
                    _ => {
                        self.state = State::Init;
                        self.pos = self.pos + 1;
                        return Ok(Some(it));
                    },
                }
            }
        }
    }
}

} // verus!
