//! Tokenizer and shunting-yard conversion.
//!
//! One left-to-right pass scans the expression and produces its tokens in
//! postfix order, keeping pending operators on an explicit stack ordered by
//! precedence. The scanning rules: digits open a numeric literal, which may
//! hold one decimal point and is a fraction exactly when it does; `d` is the
//! dice operator; `k` must be followed by `h` or `l` for the keep filters;
//! `*`, `/`, `+`, `-` and the parentheses stand for themselves; spaces are
//! skipped; anything else is `InvalidToken`. An unmatched closing
//! parenthesis is deliberately ignored rather than rejected, and an
//! unmatched opening one is drained to the output at the end; both keep the
//! historical behaviour of the grammar. A literal too large for the engine's
//! integer range is rejected as `InvalidRollParameters` rather than wrapped.

use vstd::prelude::*;
use vstd::string::StrSliceExecFns;

use crate::error::RollError;
use crate::ratio::Ratio;
use crate::render::pow10;
use crate::token::Operator;
use crate::token::Token;

verus! {

/// Whether a character is a decimal digit.
pub open spec fn is_digit(c: char) -> bool {
    48 <= c as int <= 57
}

/// The value of a digit character.
pub open spec fn digit_of(c: char) -> int {
    c as int - 48
}

/// Where the numeric literal whose digits continue at `i` ends: digits and
/// at most one decimal point are consumed, and anything else stops the scan.
pub open spec fn lit_end(s: Seq<char>, i: int, seen_dot: bool) -> int
    recommends
        0 <= i <= s.len(),
    decreases s.len() - i,
    when 0 <= i <= s.len()
{
    if i >= s.len() {
        i
    } else if is_digit(s[i]) {
        lit_end(s, i + 1, seen_dot)
    } else if !seen_dot && s[i] == '.' {
        lit_end(s, i + 1, true)
    } else {
        i
    }
}

/// The scan stays inside the expression and moves only forward.
pub proof fn lemma_lit_end_bounds(s: Seq<char>, i: int, seen_dot: bool)
    requires
        0 <= i <= s.len(),
    ensures
        i <= lit_end(s, i, seen_dot) <= s.len(),
    decreases s.len() - i,
{
    if i < s.len() {
        if is_digit(s[i]) {
            lemma_lit_end_bounds(s, i + 1, seen_dot);
        } else if !seen_dot && s[i] == '.' {
            lemma_lit_end_bounds(s, i + 1, true);
        }
    }
}

/// Reads a literal's characters left to right: the digits as one number
/// (the decimal point skipped), the count of digits after the point, and
/// whether a point occurred.
pub open spec fn lit_scan(lit: Seq<char>) -> (int, nat, bool)
    decreases lit.len(),
{
    if lit.len() == 0 {
        (0, 0nat, false)
    } else {
        let prev = lit_scan(lit.drop_last());
        let c = lit.last();
        if c == '.' {
            (prev.0, 0nat, true)
        } else {
            (
                prev.0 * 10 + digit_of(c),
                if prev.2 {
                    prev.1 + 1
                } else {
                    0nat
                },
                prev.2,
            )
        }
    }
}

/// The token a numeric literal stands for: a plain integer without a
/// decimal point, a fraction over a power of ten with one, and
/// `InvalidRollParameters` when the number leaves the engine's range.
pub open spec fn lit_token(lit: Seq<char>) -> Result<Token, RollError> {
    let sc = lit_scan(lit);
    if !sc.2 {
        if sc.0 <= i32::MAX {
            Ok(Token::Int(sc.0 as i32))
        } else {
            Err(RollError::InvalidRollParameters)
        }
    } else {
        if sc.0 <= i64::MAX && pow10(sc.1) <= i64::MAX {
            Ok(Token::Float(Ratio { num: sc.0 as i64, den: pow10(sc.1) as i64 }))
        } else {
            Err(RollError::InvalidRollParameters)
        }
    }
}

/// Pops pending operators that bind at least as tightly as `p` to the
/// output, stopping at an opening parenthesis: all operators are
/// left-associative.
pub open spec fn pop_ge(ops: Seq<Operator>, out: Seq<Token>, p: u8) -> (Seq<Operator>, Seq<Token>)
    decreases ops.len(),
{
    if ops.len() == 0 {
        (ops, out)
    } else if ops.last() != Operator::LParen && ops.last().precedence_spec() >= p {
        pop_ge(ops.drop_last(), out.push(Token::Op(ops.last())), p)
    } else {
        (ops, out)
    }
}

/// Pops pending operators to the output until an opening parenthesis, which
/// is discarded; with none on the stack the closing parenthesis has no
/// effect at all.
pub open spec fn pop_paren(ops: Seq<Operator>, out: Seq<Token>) -> (Seq<Operator>, Seq<Token>)
    decreases ops.len(),
{
    if ops.len() == 0 {
        (ops, out)
    } else if ops.last() == Operator::LParen {
        (ops.drop_last(), out)
    } else {
        pop_paren(ops.drop_last(), out.push(Token::Op(ops.last())))
    }
}

/// Pops every pending operator to the output at the end of the expression.
pub open spec fn drain_ops(ops: Seq<Operator>, out: Seq<Token>) -> Seq<Token>
    decreases ops.len(),
{
    if ops.len() == 0 {
        out
    } else {
        drain_ops(ops.drop_last(), out.push(Token::Op(ops.last())))
    }
}

/// One scanning step at position `i` with the pending operators and the
/// output so far, and everything that follows it.
pub open spec fn shunt_loop(s: Seq<char>, i: int, ops: Seq<Operator>, out: Seq<Token>) -> Result<
    Seq<Token>,
    RollError,
>
    recommends
        0 <= i <= s.len(),
    decreases s.len() - i,
    when 0 <= i <= s.len()
    via shunt_loop_decreases
{
    if i >= s.len() {
        Ok(drain_ops(ops, out))
    } else {
        let c = s[i];
        if is_digit(c) {
            let end = lit_end(s, i + 1, false);
            match lit_token(s.subrange(i, end)) {
                Ok(t) => shunt_loop(s, end, ops, out.push(t)),
                Err(e) => Err(e),
            }
        } else if c == 'k' {
            if i + 1 < s.len() && (s[i + 1] == 'h' || s[i + 1] == 'l') {
                let op = if s[i + 1] == 'h' {
                    Operator::KeepHighest
                } else {
                    Operator::KeepLowest
                };
                let popped = pop_ge(ops, out, op.precedence_spec());
                shunt_loop(s, i + 2, popped.0.push(op), popped.1)
            } else {
                Err(RollError::InvalidToken)
            }
        } else if c == 'd' || c == '*' || c == '/' || c == '+' || c == '-' {
            let op = if c == 'd' {
                Operator::Dice
            } else if c == '*' {
                Operator::Mul
            } else if c == '/' {
                Operator::Div
            } else if c == '+' {
                Operator::Add
            } else {
                Operator::Sub
            };
            let popped = pop_ge(ops, out, op.precedence_spec());
            shunt_loop(s, i + 1, popped.0.push(op), popped.1)
        } else if c == '(' {
            shunt_loop(s, i + 1, ops.push(Operator::LParen), out)
        } else if c == ')' {
            let popped = pop_paren(ops, out);
            shunt_loop(s, i + 1, popped.0, popped.1)
        } else if c == ' ' {
            shunt_loop(s, i + 1, ops, out)
        } else {
            Err(RollError::InvalidToken)
        }
    }
}

#[via_fn]
proof fn shunt_loop_decreases(s: Seq<char>, i: int, ops: Seq<Operator>, out: Seq<Token>) {
    if 0 <= i && i < s.len() && is_digit(s[i]) {
        lemma_lit_end_bounds(s, i + 1, false);
    }
}

/// What the whole conversion yields for an expression: its tokens in
/// postfix order, or the error of the first offending character.
pub open spec fn shunt_spec(s: Seq<char>) -> Result<Seq<Token>, RollError> {
    shunt_loop(s, 0, Seq::empty(), Seq::empty())
}

/// Pops operators binding at least as tightly as `p` to the output.
fn pop_ge_exec(ops: &mut Vec<Operator>, out: &mut Vec<Token>, p: u8)
    ensures
        final(ops)@ == pop_ge(old(ops)@, old(out)@, p).0,
        final(out)@ == pop_ge(old(ops)@, old(out)@, p).1,
        final(out)@.len() >= old(out)@.len(),
        forall|j: int|
            0 <= j < old(out)@.len() ==> #[trigger] final(out)@[j] == old(out)@[j],
        forall|j: int|
            old(out)@.len() <= j < final(out)@.len() ==> #[trigger] final(out)@[j] is Op,
{
    let ghost gops = ops@;
    let ghost gout = out@;
    loop
        invariant
            pop_ge(ops@, out@, p) == pop_ge(gops, gout, p),
            out@.len() >= gout.len(),
            forall|j: int| 0 <= j < gout.len() ==> #[trigger] out@[j] == gout[j],
            forall|j: int| gout.len() <= j < out@.len() ==> #[trigger] out@[j] is Op,
        ensures
            ops@ == pop_ge(gops, gout, p).0,
            out@ == pop_ge(gops, gout, p).1,
            out@.len() >= gout.len(),
            forall|j: int| 0 <= j < gout.len() ==> #[trigger] out@[j] == gout[j],
            forall|j: int| gout.len() <= j < out@.len() ==> #[trigger] out@[j] is Op,
        decreases ops@.len(),
    {
        if ops.len() == 0 {
            break;
        }
        let top = ops[ops.len() - 1];
        if matches!(top, Operator::LParen) || top.precedence() < p {
            break;
        }
        let ghost prev = ops@;
        let op = ops.pop().unwrap();
        proof {
            assert(ops@ =~= prev.drop_last());
        }
        out.push(Token::Op(op));
    }
}

/// Pops operators to the output until an opening parenthesis, which goes
/// away; a closing parenthesis with none pending changes nothing.
fn pop_paren_exec(ops: &mut Vec<Operator>, out: &mut Vec<Token>)
    ensures
        final(ops)@ == pop_paren(old(ops)@, old(out)@).0,
        final(out)@ == pop_paren(old(ops)@, old(out)@).1,
        final(out)@.len() >= old(out)@.len(),
        forall|j: int|
            0 <= j < old(out)@.len() ==> #[trigger] final(out)@[j] == old(out)@[j],
        forall|j: int|
            old(out)@.len() <= j < final(out)@.len() ==> #[trigger] final(out)@[j] is Op,
{
    let ghost gops = ops@;
    let ghost gout = out@;
    loop
        invariant
            pop_paren(ops@, out@) == pop_paren(gops, gout),
            out@.len() >= gout.len(),
            forall|j: int| 0 <= j < gout.len() ==> #[trigger] out@[j] == gout[j],
            forall|j: int| gout.len() <= j < out@.len() ==> #[trigger] out@[j] is Op,
        ensures
            pop_paren(ops@, out@) == pop_paren(gops, gout),
            out@.len() >= gout.len(),
            forall|j: int| 0 <= j < gout.len() ==> #[trigger] out@[j] == gout[j],
            forall|j: int| gout.len() <= j < out@.len() ==> #[trigger] out@[j] is Op,
            ops@.len() == 0 || ops@.last() == Operator::LParen,
        decreases ops@.len(),
    {
        if ops.len() == 0 {
            break;
        }
        let top = ops[ops.len() - 1];
        if matches!(top, Operator::LParen) {
            break;
        }
        let ghost prev = ops@;
        let op = ops.pop().unwrap();
        proof {
            assert(ops@ =~= prev.drop_last());
        }
        out.push(Token::Op(op));
    }
    if ops.len() > 0 {
        let ghost prev = ops@;
        ops.pop();
        proof {
            assert(ops@ =~= prev.drop_last());
        }
    }
}

/// The clamp above which a scanned number has certainly left every range
/// the engine accepts.
const LIT_CAP: u64 = 0x8000_0000_0000_0000;

/// Converts a dice expression to its tokens in postfix order, scanning left
/// to right with an explicit precedence stack, exactly as [`shunt_spec`]
/// says: the tokens of `Ok` are well-formed operands and operators, and
/// `Err` carries the error of the first offending character.
pub fn shunt(input: &str) -> (r: Result<Vec<Token>, RollError>)
    ensures
        r matches Ok(v) ==> shunt_spec(input@) == Ok::<Seq<Token>, RollError>(v@) && (forall|
            j: int,
        |
            0 <= j < v@.len() ==> (#[trigger] v@[j]).wf()),
        r matches Err(e) ==> shunt_spec(input@) == Err::<Seq<Token>, RollError>(e),
{
    let n: usize = input.unicode_len();
    let mut out: Vec<Token> = Vec::new();
    let mut ops: Vec<Operator> = Vec::new();
    let mut i: usize = 0;
    while i < n
        invariant
            n == input@.len(),
            0 <= i <= n,
            shunt_loop(input@, i as int, ops@, out@) == shunt_spec(input@),
            forall|j: int| 0 <= j < out@.len() ==> (#[trigger] out@[j]).wf(),
        decreases n - i,
    {
        let c = input.get_char(i);
        let cv: u32 = c as u32;
        if 48 <= cv && cv <= 57 {
            // A numeric literal: consume digits and at most one decimal
            // point, reading the number and the power of ten of its
            // fractional part as they come, clamped once they pass every
            // accepted range.
            let ghost s = input@;
            let ghost lend = lit_end(s, i as int + 1, false);
            proof {
                lemma_lit_end_bounds(s, i as int + 1, false);
            }
            let mut j: usize = i + 1;
            let mut seen_dot: bool = false;
            let mut mant: u64 = (cv - 48) as u64;
            let mut den: u64 = 1;
            proof {
                assert(s.subrange(i as int, i as int + 1).drop_last() =~= Seq::<char>::empty());
                assert(s.subrange(i as int, i as int + 1).last() == c);
                assert(lit_scan(Seq::<char>::empty()) == (0int, 0nat, false));
                assert(lit_scan(s.subrange(i as int, i as int + 1)).0 == digit_of(c));
                assert(pow10(0) == 1);
            }
            loop
                invariant
                    n == s.len(),
                    s == input@,
                    i < j <= n,
                    lit_end(s, j as int, seen_dot) == lend,
                    ({
                        let sc = lit_scan(s.subrange(i as int, j as int));
                        &&& seen_dot == sc.2
                        &&& mant == if sc.0 <= LIT_CAP { sc.0 } else { LIT_CAP as int }
                        &&& den == if pow10(sc.1) <= LIT_CAP {
                            pow10(sc.1) as int
                        } else {
                            LIT_CAP as int
                        }
                        &&& sc.0 >= 0
                    }),
                ensures
                    i < j <= n,
                    j as int == lend,
                    ({
                        let sc = lit_scan(s.subrange(i as int, j as int));
                        &&& seen_dot == sc.2
                        &&& mant == if sc.0 <= LIT_CAP { sc.0 } else { LIT_CAP as int }
                        &&& den == if pow10(sc.1) <= LIT_CAP {
                            pow10(sc.1) as int
                        } else {
                            LIT_CAP as int
                        }
                        &&& sc.0 >= 0
                    }),
                decreases n - j,
            {
                if j >= n {
                    break;
                }
                let c2 = input.get_char(j);
                let c2v: u32 = c2 as u32;
                if !((48 <= c2v && c2v <= 57) || (!seen_dot && c2v == 46)) {
                    break;
                }
                let ghost lit = s.subrange(i as int, j as int);
                proof {
                    assert(s.subrange(i as int, j as int + 1).drop_last() =~= lit);
                    assert(s.subrange(i as int, j as int + 1).last() == s[j as int]);
                }
                if c2v == 46 {
                    seen_dot = true;
                } else {
                    let wide: u128 = (mant as u128) * 10 + ((c2v - 48) as u128);
                    mant = if wide > LIT_CAP as u128 {
                        LIT_CAP
                    } else {
                        wide as u64
                    };
                    proof {
                        let sc = lit_scan(lit);
                        assert(sc.0 * 10 + digit_of(s[j as int]) >= sc.0) by (nonlinear_arith)
                            requires
                                sc.0 >= 0,
                                0 <= digit_of(s[j as int]),
                        ;
                    }
                    if seen_dot {
                        let dwide: u128 = (den as u128) * 10;
                        den = if dwide > LIT_CAP as u128 {
                            LIT_CAP
                        } else {
                            dwide as u64
                        };
                        proof {
                            let sc = lit_scan(lit);
                            assert(pow10(sc.1 + 1) == 10 * pow10(sc.1));
                        }
                    }
                }
                j = j + 1;
            }
            let ghost lit = s.subrange(i as int, lend);
            proof {
                crate::render::lemma_pow10_pos(lit_scan(lit).1);
            }
            let token = if !seen_dot {
                if mant <= i32::MAX as u64 {
                    Token::Int(mant as i32)
                } else {
                    return Err(RollError::InvalidRollParameters);
                }
            } else {
                if mant <= i64::MAX as u64 && den <= i64::MAX as u64 {
                    Token::Float(Ratio { num: mant as i64, den: den as i64 })
                } else {
                    return Err(RollError::InvalidRollParameters);
                }
            };
            out.push(token);
            i = j;
        } else if c == 'k' {
            if i + 1 < n {
                let c2 = input.get_char(i + 1);
                if c2 == 'h' || c2 == 'l' {
                    let op = if c2 == 'h' {
                        Operator::KeepHighest
                    } else {
                        Operator::KeepLowest
                    };
                    pop_ge_exec(&mut ops, &mut out, op.precedence());
                    ops.push(op);
                    i = i + 2;
                } else {
                    return Err(RollError::InvalidToken);
                }
            } else {
                return Err(RollError::InvalidToken);
            }
        } else if c == 'd' || c == '*' || c == '/' || c == '+' || c == '-' {
            let op = if c == 'd' {
                Operator::Dice
            } else if c == '*' {
                Operator::Mul
            } else if c == '/' {
                Operator::Div
            } else if c == '+' {
                Operator::Add
            } else {
                Operator::Sub
            };
            pop_ge_exec(&mut ops, &mut out, op.precedence());
            ops.push(op);
            i = i + 1;
        } else if c == '(' {
            ops.push(Operator::LParen);
            i = i + 1;
        } else if c == ')' {
            pop_paren_exec(&mut ops, &mut out);
            i = i + 1;
        } else if c == ' ' {
            i = i + 1;
        } else {
            return Err(RollError::InvalidToken);
        }
    }

    // End of input: every pending operator moves to the output.
    while ops.len() > 0
        invariant
            forall|j: int| 0 <= j < out@.len() ==> (#[trigger] out@[j]).wf(),
            shunt_loop(input@, input@.len() as int, ops@, out@) == shunt_spec(input@),
        decreases ops@.len(),
    {
        let ghost prev = ops@;
        let op = ops.pop().unwrap();
        proof {
            assert(ops@ =~= prev.drop_last());
        }
        out.push(Token::Op(op));
    }
    Ok(out)
}

} // verus!
