//! Evaluation of a postfix token sequence.
//!
//! A single pass drives a value stack: operands are pushed, and each
//! operator pops its right-hand operand first, then its left-hand one. The
//! dice operator alone may stand with a single operand, taking an implicit
//! left operand of 1, so `d6` rolls one die. After the last token the stack
//! must hold exactly one value, which is rendered as text.
//!
//! Dice make an evaluation's outcome open: the contracts speak of the value
//! stacks an evaluation *can* reach, one step per token, with every roll's
//! outcome bounded by [`dice_outcome`]. On an expression without dice
//! exactly one outcome satisfies the relation.

use vstd::prelude::*;

use crate::error::RollError;
use crate::render::int_rep;
use crate::render::ratio_rep;
use crate::roll::dice_outcome;
use crate::roll::kept_results;
use crate::roll::sum;
use crate::roll::Roll;
use crate::token::add_spec;
use crate::token::div_spec;
use crate::token::mul_spec;
use crate::token::sub_spec;
use crate::token::Operator;
use crate::token::Token;

verus! {

/// Whether the stack offers an operator its operands: two values, or one
/// for the dice operator, whose left operand then defaults to 1.
pub open spec fn has_operands(pre: Seq<Token>, op: Operator) -> bool {
    pre.len() >= 2 || (pre.len() == 1 && op == Operator::Dice)
}

/// The left-hand operand an operator pops, the implicit 1 included.
pub open spec fn step_lhs(pre: Seq<Token>, op: Operator) -> Token
    recommends
        has_operands(pre, op),
{
    if pre.len() == 1 {
        Token::Int(1)
    } else {
        pre[pre.len() - 2]
    }
}

/// The right-hand operand an operator pops: the top of the stack.
pub open spec fn step_rhs(pre: Seq<Token>) -> Token
    recommends
        pre.len() >= 1,
{
    pre.last()
}

/// The stack below the popped operands.
pub open spec fn step_rest(pre: Seq<Token>) -> Seq<Token>
    recommends
        pre.len() >= 1,
{
    if pre.len() == 1 {
        pre.drop_last()
    } else {
        pre.take(pre.len() - 2)
    }
}

/// The error one operator application yields on this stack, if it must
/// fail; the open `Overflow` of a dice roll is not included.
pub open spec fn step_err(pre: Seq<Token>, op: Operator) -> Option<RollError> {
    if !has_operands(pre, op) {
        Some(RollError::InsufficientOperands)
    } else {
        let lhs = step_lhs(pre, op);
        let rhs = step_rhs(pre);
        match op {
            Operator::Dice => if !lhs.is_intlike() || !rhs.is_intlike() {
                Some(RollError::NotAnOperand)
            } else if lhs.int_value() <= 0 || rhs.int_value() <= 0 {
                Some(RollError::InvalidRollParameters)
            } else {
                None
            },
            Operator::KeepHighest | Operator::KeepLowest => if !(lhs is DiceRoll)
                || !rhs.is_intlike() {
                Some(RollError::NotAnOperand)
            } else if rhs.int_value() < 0 {
                Some(RollError::InvalidRollParameters)
            } else {
                None
            },
            Operator::Add => match add_spec(lhs, rhs) {
                Ok(_) => None,
                Err(e) => Some(e),
            },
            Operator::Sub => match sub_spec(lhs, rhs) {
                Ok(_) => None,
                Err(e) => Some(e),
            },
            Operator::Mul => match mul_spec(lhs, rhs) {
                Ok(_) => None,
                Err(e) => Some(e),
            },
            Operator::Div => match div_spec(lhs, rhs) {
                Ok(_) => None,
                Err(e) => Some(e),
            },
            Operator::LParen | Operator::RParen => Some(RollError::NotAnOperator),
        }
    }
}

/// The stack an operator other than dice leaves when it does not fail: the
/// popped operands are replaced by the one value they yield. A keep filter
/// collapses its roll to the total of the kept results.
pub open spec fn step_next(pre: Seq<Token>, op: Operator) -> Seq<Token>
    recommends
        has_operands(pre, op),
        step_err(pre, op) is None,
        op != Operator::Dice,
{
    let lhs = step_lhs(pre, op);
    let rhs = step_rhs(pre);
    let rest = step_rest(pre);
    match op {
        Operator::KeepHighest => match lhs {
            Token::DiceRoll(roll) => rest.push(
                Token::Int(sum(kept_results(roll.spec_rolls(), rhs.int_value(), true)) as i32),
            ),
            _ => pre,
        },
        Operator::KeepLowest => match lhs {
            Token::DiceRoll(roll) => rest.push(
                Token::Int(sum(kept_results(roll.spec_rolls(), rhs.int_value(), false)) as i32),
            ),
            _ => pre,
        },
        Operator::Add => match add_spec(lhs, rhs) {
            Ok(t) => rest.push(t),
            Err(_) => pre,
        },
        Operator::Sub => match sub_spec(lhs, rhs) {
            Ok(t) => rest.push(t),
            Err(_) => pre,
        },
        Operator::Mul => match mul_spec(lhs, rhs) {
            Ok(t) => rest.push(t),
            Err(_) => pre,
        },
        Operator::Div => match div_spec(lhs, rhs) {
            Ok(t) => rest.push(t),
            Err(_) => pre,
        },
        _ => pre,
    }
}

/// One evaluation step that succeeds: an operand is pushed; an operator
/// pops its operands and pushes its value; the dice operator pushes any
/// outcome its counts allow.
pub open spec fn tok_step_ok(pre: Seq<Token>, t: Token, post: Seq<Token>) -> bool {
    match t {
        Token::Op(op) => step_err(pre, op) is None && if op == Operator::Dice {
            exists|roll: Roll|
                #[trigger]
                dice_outcome(step_lhs(pre, op).int_value(), step_rhs(pre).int_value(), roll)
                    && post == step_rest(pre).push(Token::DiceRoll(roll))
        } else {
            post == step_next(pre, op)
        },
        _ => post == pre.push(t),
    }
}

/// One evaluation step that fails with `e`: the error the stack forces, or
/// the open `Overflow` of a dice roll whose largest total leaves the
/// integer range.
pub open spec fn tok_step_err(pre: Seq<Token>, t: Token, e: RollError) -> bool {
    match t {
        Token::Op(op) => match step_err(pre, op) {
            Some(err) => e == err,
            None => op == Operator::Dice && e == RollError::Overflow && step_lhs(pre, op).int_value()
                * step_rhs(pre).int_value() > i32::MAX,
        },
        _ => false,
    }
}

/// A run of the evaluator over `tokens`: the value stack before and after
/// each step, from the empty stack, each step allowed.
pub open spec fn trace_ok(tokens: Seq<Token>, stacks: Seq<Seq<Token>>) -> bool {
    &&& stacks.len() == tokens.len() + 1
    &&& stacks[0] == Seq::<Token>::empty()
    &&& forall|i: int|
        0 <= i < tokens.len() ==> tok_step_ok(#[trigger] stacks[i], tokens[i], stacks[i + 1])
}

/// The value stacks an evaluation can reach after consuming `tokens`, one
/// allowed step per token.
pub open spec fn reaches(tokens: Seq<Token>, stack: Seq<Token>) -> bool {
    exists|stacks: Seq<Seq<Token>>| #[trigger] trace_ok(tokens, stacks) && stacks.last() == stack
}

/// Before any token, only the empty stack is reached.
pub proof fn lemma_reaches_nil()
    ensures
        reaches(Seq::<Token>::empty(), Seq::<Token>::empty()),
{
    let stacks = seq![Seq::<Token>::empty()];
    assert(trace_ok(Seq::<Token>::empty(), stacks));
    assert(stacks.last() == Seq::<Token>::empty());
}

/// One allowed step extends a stack reachable after `i` tokens.
pub proof fn lemma_reaches_step(tokens: Seq<Token>, i: int, prev: Seq<Token>, post: Seq<Token>)
    requires
        0 <= i < tokens.len(),
        reaches(tokens.take(i), prev),
        tok_step_ok(prev, tokens[i], post),
    ensures
        reaches(tokens.take(i + 1), post),
{
    let stacks = choose|stacks: Seq<Seq<Token>>|
        #[trigger] trace_ok(tokens.take(i), stacks) && stacks.last() == prev;
    let stacks2 = stacks.push(post);
    assert(trace_ok(tokens.take(i + 1), stacks2)) by {
        assert(stacks2[0] == Seq::<Token>::empty());
        assert forall|j: int| 0 <= j < tokens.take(i + 1).len() implies tok_step_ok(
            #[trigger] stacks2[j],
            tokens.take(i + 1)[j],
            stacks2[j + 1],
        ) by {
            if j < i {
                assert(tok_step_ok(stacks[j], tokens.take(i)[j], stacks[j + 1]));
                assert(stacks2[j] == stacks[j]);
                assert(stacks2[j + 1] == stacks[j + 1]);
            } else {
                assert(stacks2[j] == stacks[stacks.len() - 1]);
                assert(stacks2[j + 1] == post);
            }
        }
    }
    assert(stacks2.last() == post);
}

/// With no tokens, only the empty stack is reachable.
pub proof fn lemma_reaches_nil_inv(tokens: Seq<Token>, stack: Seq<Token>)
    requires
        tokens.len() == 0,
        reaches(tokens, stack),
    ensures
        stack == Seq::<Token>::empty(),
{
    let stacks = choose|stacks: Seq<Seq<Token>>|
        #[trigger] trace_ok(tokens, stacks) && stacks.last() == stack;
    assert(stacks.last() == stacks[0]);
}

/// A stack reachable after some tokens came from a stack reachable one step
/// earlier by one allowed step.
pub proof fn lemma_reaches_snoc_inv(tokens: Seq<Token>, stack: Seq<Token>)
    requires
        tokens.len() > 0,
        reaches(tokens, stack),
    ensures
        exists|prev: Seq<Token>|
            #[trigger] reaches(tokens.drop_last(), prev) && tok_step_ok(
                prev,
                tokens.last(),
                stack,
            ),
{
    let stacks = choose|stacks: Seq<Seq<Token>>|
        #[trigger] trace_ok(tokens, stacks) && stacks.last() == stack;
    let prev = stacks[stacks.len() - 2];
    let front = stacks.drop_last();
    assert(trace_ok(tokens.drop_last(), front)) by {
        assert(front[0] == stacks[0]);
        assert forall|i: int| 0 <= i < tokens.drop_last().len() implies tok_step_ok(
            #[trigger] front[i],
            tokens.drop_last()[i],
            front[i + 1],
        ) by {
            assert(tok_step_ok(stacks[i], tokens[i], stacks[i + 1]));
        }
    }
    assert(front.last() == prev);
    assert(reaches(tokens.drop_last(), prev));
    assert(tok_step_ok(stacks[stacks.len() - 2], tokens[tokens.len() - 1], stacks[stacks.len()
        - 1]));
    assert(reaches(tokens.drop_last(), prev) && tok_step_ok(prev, tokens.last(), stack));
}

/// Whether an evaluation of `tokens` can fail with `e`: some reachable
/// stack forces it at a step, or the whole sequence leaves other than
/// exactly one value.
pub open spec fn eval_fails(tokens: Seq<Token>, e: RollError) -> bool {
    ||| exists|i: int, stack: Seq<Token>|
        0 <= i < tokens.len() && #[trigger] reaches(tokens.take(i), stack) && tok_step_err(
            stack,
            tokens[i],
            e,
        )
    ||| (e == RollError::MalformedExpression && exists|stack: Seq<Token>|
        #[trigger] reaches(tokens, stack) && stack.len() != 1)
}

/// How the one remaining value renders: integers as plain decimal, a
/// lingering roll as its total, fractions as [`ratio_rep`] says.
pub open spec fn render_spec(t: Token) -> Seq<char>
    recommends
        t.is_operand(),
{
    match t {
        Token::Int(n) => int_rep(n as int),
        Token::Float(q) => ratio_rep(q.num as int, q.den as int),
        Token::DiceRoll(r) => int_rep(r.spec_total()),
        Token::Op(_) => Seq::empty(),
    }
}

/// Evaluates a postfix token sequence and renders the result. Every
/// outcome is justified by the step relation: an `Ok` renders the one
/// value of a reachable final stack, and an `Err` is forced at some
/// reachable step, or is `MalformedExpression` for a reachable final stack
/// that does not hold exactly one value.
#[verifier::loop_isolation(false)]
#[verifier::rlimit(60)]
pub fn eval(input: Vec<Token>) -> (r: Result<String, RollError>)
    requires
        forall|j: int| 0 <= j < input@.len() ==> (#[trigger] input@[j]).wf(),
    ensures
        r matches Ok(s) ==> exists|stack: Seq<Token>|
            #[trigger] reaches(input@, stack) && stack.len() == 1 && stack[0].is_operand() && s@
                == render_spec(stack[0]),
        r matches Err(e) ==> eval_fails(input@, e),
{
    let ghost toks = input@;
    let mut input = input;
    let total: usize = input.len();
    let mut stack: Vec<Token> = Vec::new();
    let mut idx: usize = 0;
    proof {
        lemma_reaches_nil();
        assert(toks.take(0) =~= Seq::<Token>::empty());
        assert(stack@ =~= Seq::<Token>::empty());
    }
    while input.len() > 0
        invariant
            total == toks.len(),
            idx + input@.len() == toks.len(),
            input@ == toks.skip(idx as int),
            forall|j: int| 0 <= j < toks.len() ==> (#[trigger] toks[j]).wf(),
            reaches(toks.take(idx as int), stack@),
            forall|j: int|
                0 <= j < stack@.len() ==> (#[trigger] stack@[j]).is_operand() && stack@[j].wf(),
        decreases input@.len(),
    {
        let ghost pre = stack@;
        let t = input.remove(0);
        proof {
            assert(t == toks[idx as int]);
            assert(input@ =~= toks.skip(idx as int + 1));
            assert(reaches(toks.take(idx as int), pre));
        }
        match t {
            Token::Op(op) => {
                let rhs_opt = stack.pop();
                let lhs_opt = stack.pop();
                proof {
                    if pre.len() >= 2 {
                        assert(stack@ =~= step_rest(pre));
                        assert(lhs_opt == Some(step_lhs(pre, op)));
                        assert(rhs_opt == Some(step_rhs(pre)));
                    } else if pre.len() == 1 {
                        assert(stack@ =~= step_rest(pre));
                        assert(rhs_opt == Some(step_rhs(pre)));
                    }
                }
                let lhs: Token;
                let rhs: Token;
                match (lhs_opt, rhs_opt) {
                    (Some(l), Some(rr)) => {
                        lhs = l;
                        rhs = rr;
                    },
                    (None, Some(rr)) => {
                        if matches!(op, Operator::Dice) {
                            lhs = Token::Int(1);
                            rhs = rr;
                        } else {
                            proof {
                                assert(tok_step_err(pre, toks[idx as int], RollError::InsufficientOperands));
                            }
                            return Err(RollError::InsufficientOperands);
                        }
                    },
                    _ => {
                        proof {
                            assert(tok_step_err(pre, toks[idx as int], RollError::InsufficientOperands));
                        }
                        return Err(RollError::InsufficientOperands);
                    },
                }
                proof {
                    assert(lhs == step_lhs(pre, op));
                    assert(rhs == step_rhs(pre));
                }
                let result: Token = match op {
                    Operator::Dice => {
                        let m = match lhs.as_int() {
                            Ok(v) => v,
                            Err(e) => {
                                proof {
                                    assert(tok_step_err(pre, toks[idx as int], e));
                                }
                                return Err(e);
                            },
                        };
                        let n = match rhs.as_int() {
                            Ok(v) => v,
                            Err(e) => {
                                proof {
                                    assert(tok_step_err(pre, toks[idx as int], e));
                                }
                                return Err(e);
                            },
                        };
                        match Roll::mdn(m, n) {
                            Ok(roll) => Token::DiceRoll(roll),
                            Err(e) => {
                                proof {
                                    assert(tok_step_err(pre, toks[idx as int], e));
                                }
                                return Err(e);
                            },
                        }
                    },
                    Operator::KeepHighest | Operator::KeepLowest => {
                        let keep_high = matches!(op, Operator::KeepHighest);
                        let mut roll = match lhs.roll() {
                            Ok(roll) => roll,
                            Err(e) => {
                                proof {
                                    assert(tok_step_err(pre, toks[idx as int], e));
                                }
                                return Err(e);
                            },
                        };
                        let nk = match rhs.as_int() {
                            Ok(v) => v,
                            Err(e) => {
                                proof {
                                    assert(tok_step_err(pre, toks[idx as int], e));
                                }
                                return Err(e);
                            },
                        };
                        if nk < 0 {
                            proof {
                                assert(tok_step_err(pre, toks[idx as int], RollError::InvalidRollParameters));
                            }
                            return Err(RollError::InvalidRollParameters);
                        }
                        if keep_high {
                            roll.keep_highest(nk as usize)
                        } else {
                            roll.keep_lowest(nk as usize)
                        }
                    },
                    Operator::Add => match lhs.add(rhs) {
                        Ok(t2) => t2,
                        Err(e) => {
                            proof {
                                assert(tok_step_err(pre, toks[idx as int], e));
                            }
                            return Err(e);
                        },
                    },
                    Operator::Sub => match lhs.sub(rhs) {
                        Ok(t2) => t2,
                        Err(e) => {
                            proof {
                                assert(tok_step_err(pre, toks[idx as int], e));
                            }
                            return Err(e);
                        },
                    },
                    Operator::Mul => match lhs.mul(rhs) {
                        Ok(t2) => t2,
                        Err(e) => {
                            proof {
                                assert(tok_step_err(pre, toks[idx as int], e));
                            }
                            return Err(e);
                        },
                    },
                    Operator::Div => match lhs.div(rhs) {
                        Ok(t2) => t2,
                        Err(e) => {
                            proof {
                                assert(tok_step_err(pre, toks[idx as int], e));
                            }
                            return Err(e);
                        },
                    },
                    Operator::LParen | Operator::RParen => {
                        proof {
                            assert(tok_step_err(pre, toks[idx as int], RollError::NotAnOperator));
                        }
                        return Err(RollError::NotAnOperator);
                    },
                };
                stack.push(result);
                proof {
                    assert(tok_step_ok(pre, toks[idx as int], stack@));
                    lemma_reaches_step(toks, idx as int, pre, stack@);
                }
            },
            _ => {
                stack.push(t);
                proof {
                    assert(tok_step_ok(pre, toks[idx as int], stack@));
                    lemma_reaches_step(toks, idx as int, pre, stack@);
                }
            },
        }
        idx = idx + 1;
    }
    proof {
        assert(toks.skip(idx as int).len() == 0);
        assert(idx == toks.len());
        assert(toks.take(idx as int) =~= toks);
    }

    if stack.len() != 1 {
        return Err(RollError::MalformedExpression);
    }
    let top = stack.pop().unwrap();
    top.render()
}

/// Evaluates a dice expression from text to text: the conversion of
/// [`crate::shunt::shunt`] followed by the evaluation of [`eval`], whose
/// contracts pin every outcome down.
pub fn evaluate(expression: &str) -> (r: Result<String, RollError>)
    ensures
        crate::shunt::shunt_spec(expression@) matches Err(e) ==> r == Err::<String, RollError>(e),
        crate::shunt::shunt_spec(expression@) is Ok && r is Ok ==> exists|stack: Seq<Token>|
            #[trigger] reaches(crate::shunt::shunt_spec(expression@)->Ok_0, stack) && stack.len()
                == 1 && stack[0].is_operand() && (r->Ok_0)@ == render_spec(stack[0]),
        crate::shunt::shunt_spec(expression@) is Ok && r is Err ==> eval_fails(
            crate::shunt::shunt_spec(expression@)->Ok_0,
            r->Err_0,
        ),
{
    let tokens = match crate::shunt::shunt(expression) {
        Ok(tokens) => tokens,
        Err(e) => {
            return Err(e);
        },
    };
    let r = eval(tokens);
    proof {
        if r is Ok {
            let w = choose|stack: Seq<Token>|
                #[trigger] reaches(tokens@, stack) && stack.len() == 1 && stack[0].is_operand()
                    && (r->Ok_0)@ == render_spec(stack[0]);
            assert(reaches(crate::shunt::shunt_spec(expression@)->Ok_0, w) && w.len() == 1
                && w[0].is_operand() && (r->Ok_0)@ == render_spec(w[0]));
        }
    }
    r
}

} // verus!
