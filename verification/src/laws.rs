//! Laws of the engine as a whole, proved over the contracts of the
//! conversion, the evaluation relation and the renderer.

use vstd::arithmetic::div_mod::lemma_fundamental_div_mod;
use vstd::prelude::*;

use crate::error::RollError;
use crate::eval::eval_fails;
use crate::eval::lemma_reaches_nil;
use crate::eval::lemma_reaches_nil_inv;
use crate::eval::lemma_reaches_snoc_inv;
use crate::eval::lemma_reaches_step;
use crate::eval::reaches;
use crate::eval::render_spec;
use crate::eval::step_err;
use crate::eval::step_lhs;
use crate::eval::step_rest;
use crate::eval::step_rhs;
use crate::eval::tok_step_err;
use crate::eval::tok_step_ok;
use crate::render::dec_digit;
use crate::render::dec_rep;
use crate::render::int_rep;
use crate::render::ratio_rep;
use crate::roll::dice_outcome;
use crate::roll::Roll;
use crate::shunt::digit_of;
use crate::shunt::drain_ops;
use crate::shunt::is_digit;
use crate::shunt::lit_end;
use crate::shunt::lit_scan;
use crate::shunt::lit_token;
use crate::shunt::pop_ge;
use crate::shunt::shunt_loop;
use crate::shunt::shunt_spec;
use crate::token::Operator;
use crate::token::Token;

verus! {

/// The postfix tokens of `dN`.
pub open spec fn bare_die_tokens(n: i32) -> Seq<Token> {
    seq![Token::Int(n), Token::Op(Operator::Dice)]
}

/// The postfix tokens of `MdN`.
pub open spec fn counted_die_tokens(m: i32, n: i32) -> Seq<Token> {
    seq![Token::Int(m), Token::Int(n), Token::Op(Operator::Dice)]
}

/// The postfix tokens of a bare numeral.
pub open spec fn numeral_tokens(n: i32) -> Seq<Token> {
    seq![Token::Int(n)]
}

/// A decimal representation is never empty and holds digits alone.
pub proof fn lemma_dec_rep_digits(n: nat)
    ensures
        dec_rep(n).len() >= 1,
        forall|i: int| 0 <= i < dec_rep(n).len() ==> is_digit(#[trigger] dec_rep(n)[i]),
    decreases n,
{
    assert(forall|d: int| 0 <= d < 10 ==> is_digit(#[trigger] dec_digit(d)));
    if n >= 10 {
        lemma_dec_rep_digits(n / 10);
    }
}

/// A digit of a decimal representation reads back as its value.
proof fn lemma_digit_of_dec_digit(d: int)
    requires
        0 <= d < 10,
    ensures
        digit_of(dec_digit(d)) == d,
        dec_digit(d) != '.',
{
}

/// A numeric literal's scan stops exactly where its digits stop.
proof fn lemma_lit_end_digits(s: Seq<char>, i: int, stop: int)
    requires
        0 <= i <= stop <= s.len(),
        forall|j: int| i <= j < stop ==> is_digit(#[trigger] s[j]),
        stop == s.len() || (!is_digit(s[stop]) && s[stop] != '.'),
    ensures
        lit_end(s, i, false) == stop,
    decreases stop - i,
{
    if i < stop {
        lemma_lit_end_digits(s, i + 1, stop);
    }
}

/// Scanning the decimal representation of `n` reads back `n`, with no
/// decimal point.
proof fn lemma_lit_scan_dec_rep(n: nat)
    ensures
        lit_scan(dec_rep(n)) == (n as int, 0nat, false),
    decreases n,
{
    if n < 10 {
        lemma_digit_of_dec_digit(n as int);
        assert(lit_scan(Seq::<char>::empty()) == (0int, 0nat, false));
        assert(dec_rep(n).drop_last() =~= Seq::<char>::empty());
        assert(dec_rep(n).last() == dec_digit(n as int));
    } else {
        lemma_lit_scan_dec_rep(n / 10);
        lemma_digit_of_dec_digit((n % 10) as int);
        assert(dec_rep(n).drop_last() =~= dec_rep(n / 10));
        assert(dec_rep(n).last() == dec_digit((n % 10) as int));
        lemma_fundamental_div_mod(n as int, 10);
    }
}

/// The conversion of a bare decimal numeral: one integer token.
proof fn lemma_shunt_numeral(n: i32)
    requires
        0 <= n,
    ensures
        shunt_spec(dec_rep(n as nat)) == Ok::<Seq<Token>, RollError>(numeral_tokens(n)),
{
    let s = dec_rep(n as nat);
    lemma_dec_rep_digits(n as nat);
    lemma_lit_end_digits(s, 1, s.len() as int);
    assert(s.subrange(0, s.len() as int) =~= s);
    lemma_lit_scan_dec_rep(n as nat);
    assert(lit_token(s) == Ok::<Token, RollError>(Token::Int(n)));
    assert(shunt_loop(s, 0, Seq::empty(), Seq::empty()) == shunt_loop(
        s,
        s.len() as int,
        Seq::empty(),
        Seq::<Token>::empty().push(Token::Int(n)),
    ));
    assert(drain_ops(Seq::empty(), Seq::<Token>::empty().push(Token::Int(n)))
        == Seq::<Token>::empty().push(Token::Int(n)));
    assert(Seq::<Token>::empty().push(Token::Int(n)) =~= numeral_tokens(n));
}

/// A sequence of operand tokens evaluates to exactly itself as the stack.
pub proof fn lemma_reaches_operands(toks: Seq<Token>, st: Seq<Token>)
    requires
        forall|j: int| 0 <= j < toks.len() ==> (#[trigger] toks[j]).is_operand(),
    ensures
        reaches(toks, st) <==> st == toks,
    decreases toks.len(),
{
    if toks.len() == 0 {
        if reaches(toks, st) {
            lemma_reaches_nil_inv(toks, st);
        }
        lemma_reaches_nil();
        assert(toks =~= Seq::<Token>::empty());
    } else {
        let front = toks.drop_last();
        assert(forall|j: int| 0 <= j < front.len() ==> (#[trigger] front[j]).is_operand()) by {
            assert(forall|j: int| 0 <= j < front.len() ==> front[j] == toks[j]);
        }
        if reaches(toks, st) {
            lemma_reaches_snoc_inv(toks, st);
            let prev = choose|prev: Seq<Token>|
                #[trigger] reaches(front, prev) && tok_step_ok(prev, toks.last(), st);
            lemma_reaches_operands(front, prev);
            assert(st == prev.push(toks.last()));
            assert(front.push(toks.last()) =~= toks);
        }
        lemma_reaches_operands(front, front);
        assert(reaches(front, front));
        assert(toks.take(toks.len() - 1) =~= front);
        assert(tok_step_ok(front, toks[toks.len() - 1], toks)) by {
            assert(front.push(toks.last()) =~= toks);
        }
        lemma_reaches_step(toks, toks.len() - 1, front, toks);
        assert(toks.take(toks.len() as int) =~= toks);
    }
}

/// What a dice expression's postfix tokens evaluate to: with positive
/// counts, exactly the one-roll stacks the counts allow; it can fail only
/// with `Overflow`, and only when the largest possible total leaves the
/// integer range.
pub proof fn lemma_dice_expression_outcomes(opnds: Seq<Token>, m: i32, n: i32, st: Seq<Token>)
    requires
        m > 0,
        n > 0,
        opnds == seq![Token::Int(m), Token::Int(n)] || (m == 1 && opnds == seq![Token::Int(n)]),
    ensures
        reaches(opnds.push(Token::Op(Operator::Dice)), st) <==> exists|roll: Roll|
            #[trigger] dice_outcome(m as int, n as int, roll) && st == seq![Token::DiceRoll(roll)],
        forall|e: RollError|
            #[trigger] eval_fails(opnds.push(Token::Op(Operator::Dice)), e) <==> (e
                == RollError::Overflow && m * n > i32::MAX),
{
    let toks = opnds.push(Token::Op(Operator::Dice));
    assert(toks.drop_last() =~= opnds);
    assert(forall|j: int| 0 <= j < opnds.len() ==> (#[trigger] opnds[j]).is_operand());
    assert(step_lhs(opnds, Operator::Dice).int_value() == m);
    assert(step_rhs(opnds).int_value() == n);
    assert(step_err(opnds, Operator::Dice) is None);
    assert(step_rest(opnds) =~= Seq::<Token>::empty());

    // The reachable final stacks.
    assert forall|st2: Seq<Token>| reaches(toks, st2) implies exists|roll: Roll|
        #[trigger] dice_outcome(m as int, n as int, roll) && st2 == seq![
            Token::DiceRoll(roll),
        ] by {
        lemma_reaches_snoc_inv(toks, st2);
        let prev = choose|prev: Seq<Token>|
            #[trigger] reaches(opnds, prev) && tok_step_ok(prev, toks.last(), st2);
        lemma_reaches_operands(opnds, prev);
        let roll = choose|roll: Roll|
            #[trigger] dice_outcome(
                step_lhs(prev, Operator::Dice).int_value(),
                step_rhs(prev).int_value(),
                roll,
            ) && st2 == step_rest(prev).push(Token::DiceRoll(roll));
        assert(step_rest(prev).push(Token::DiceRoll(roll)) =~= seq![Token::DiceRoll(roll)]);
        assert(dice_outcome(m as int, n as int, roll) && st2 == seq![Token::DiceRoll(roll)]);
    }
    assert forall|roll: Roll| dice_outcome(m as int, n as int, roll) implies reaches(
        toks,
        seq![Token::DiceRoll(roll)],
    ) by {
        lemma_reaches_operands(opnds, opnds);
        assert(toks.take(toks.len() - 1) =~= opnds);
        assert(tok_step_ok(opnds, toks[toks.len() - 1], seq![Token::DiceRoll(roll)])) by {
            assert(step_rest(opnds).push(Token::DiceRoll(roll)) =~= seq![Token::DiceRoll(roll)]);
            assert(dice_outcome(
                step_lhs(opnds, Operator::Dice).int_value(),
                step_rhs(opnds).int_value(),
                roll,
            ) && seq![Token::DiceRoll(roll)] == step_rest(opnds).push(Token::DiceRoll(roll)));
        }
        lemma_reaches_step(toks, toks.len() - 1, opnds, seq![Token::DiceRoll(roll)]);
        assert(toks.take(toks.len() as int) =~= toks);
    }

    // The possible failures.
    assert forall|e: RollError| #[trigger] eval_fails(toks, e) implies (e == RollError::Overflow
        && m * n > i32::MAX) by {
        if exists|i: int, stack: Seq<Token>|
            0 <= i < toks.len() && #[trigger] reaches(toks.take(i), stack) && tok_step_err(
                stack,
                toks[i],
                e,
            ) {
            let (i, stack) = choose|i: int, stack: Seq<Token>|
                0 <= i < toks.len() && #[trigger] reaches(toks.take(i), stack) && tok_step_err(
                    stack,
                    toks[i],
                    e,
                );
            assert(forall|j: int|
                0 <= j < toks.take(i).len() ==> (#[trigger] toks.take(i)[j]).is_operand());
            lemma_reaches_operands(toks.take(i), stack);
            if i < toks.len() - 1 {
                assert(!tok_step_err(stack, toks[i], e));
            } else {
                assert(stack =~= opnds);
            }
        } else {
            let stack = choose|stack: Seq<Token>|
                #[trigger] reaches(toks, stack) && stack.len() != 1;
        }
    }
    if m * n > i32::MAX {
        let i = toks.len() - 1;
        assert(toks.take(i) =~= opnds);
        lemma_reaches_operands(opnds, opnds);
        assert(tok_step_err(opnds, toks[i], RollError::Overflow));
        assert(eval_fails(toks, RollError::Overflow));
    }
}

/// An expression with no explicit die count, `dN`, behaves identically to
/// `1dN` with one die spelled out: both convert, their token sequences
/// admit exactly the same final stacks, and they can fail in exactly the
/// same ways.
pub proof fn lemma_bare_die_equals_one_die(n: i32)
    requires
        n > 0,
    ensures
        shunt_spec(seq!['d'] + dec_rep(n as nat)) == Ok::<Seq<Token>, RollError>(
            bare_die_tokens(n),
        ),
        shunt_spec(dec_rep(1) + seq!['d'] + dec_rep(n as nat)) == Ok::<Seq<Token>, RollError>(
            counted_die_tokens(1, n),
        ),
        forall|st: Seq<Token>|
            #[trigger] reaches(bare_die_tokens(n), st) <==> reaches(counted_die_tokens(1, n), st),
        forall|e: RollError|
            #[trigger] eval_fails(bare_die_tokens(n), e) <==> eval_fails(
                counted_die_tokens(1, n),
                e,
            ),
{
    lemma_shunt_bare_dice(n);
    lemma_shunt_dice(1, n);
    assert(dec_rep(1) =~= seq![dec_digit(1)]);
    let a = seq![Token::Int(n)];
    let b = seq![Token::Int(1), Token::Int(n)];
    assert forall|st: Seq<Token>|
        #[trigger] reaches(a.push(Token::Op(Operator::Dice)), st) <==> reaches(
            b.push(Token::Op(Operator::Dice)),
            st,
        ) by {
        lemma_dice_expression_outcomes(a, 1, n, st);
        lemma_dice_expression_outcomes(b, 1, n, st);
    }
    assert forall|e: RollError|
        #[trigger] eval_fails(a.push(Token::Op(Operator::Dice)), e) <==> eval_fails(
            b.push(Token::Op(Operator::Dice)),
            e,
        ) by {
        lemma_dice_expression_outcomes(a, 1, n, Seq::empty());
        lemma_dice_expression_outcomes(b, 1, n, Seq::empty());
    }
    assert(a.push(Token::Op(Operator::Dice)) =~= bare_die_tokens(n));
    assert(b.push(Token::Op(Operator::Dice)) =~= counted_die_tokens(1, n));
}

/// The conversion of `dN`: the side count, then the dice operator.
proof fn lemma_shunt_bare_dice(n: i32)
    requires
        0 <= n,
    ensures
        shunt_spec(seq!['d'] + dec_rep(n as nat)) == Ok::<Seq<Token>, RollError>(
            bare_die_tokens(n),
        ),
{
    let s = seq!['d'] + dec_rep(n as nat);
    lemma_dec_rep_digits(n as nat);
    assert(s[0] == 'd');
    assert(!is_digit('d'));
    assert(pop_ge(Seq::empty(), Seq::empty(), 4) == (
        Seq::<Operator>::empty(),
        Seq::<Token>::empty(),
    ));
    assert(forall|j: int| 1 <= j < s.len() ==> is_digit(#[trigger] s[j])) by {
        assert(forall|j: int| 1 <= j < s.len() ==> s[j] == dec_rep(n as nat)[j - 1]);
    }
    lemma_lit_end_digits(s, 2, s.len() as int);
    assert(s.subrange(1, s.len() as int) =~= dec_rep(n as nat));
    lemma_lit_scan_dec_rep(n as nat);
    let ops1 = Seq::<Operator>::empty().push(Operator::Dice);
    let out2 = Seq::<Token>::empty().push(Token::Int(n));
    assert(shunt_loop(s, 0, Seq::empty(), Seq::empty()) == shunt_loop(s, 1, ops1, Seq::empty()));
    assert(shunt_loop(s, 1, ops1, Seq::empty()) == shunt_loop(s, s.len() as int, ops1, out2));
    assert(ops1.drop_last() =~= Seq::<Operator>::empty());
    assert(drain_ops(Seq::<Operator>::empty(), out2.push(Token::Op(Operator::Dice)))
        == out2.push(Token::Op(Operator::Dice)));
    assert(drain_ops(ops1, out2) == out2.push(Token::Op(Operator::Dice)));
    assert(out2.push(Token::Op(Operator::Dice)) =~= bare_die_tokens(n));
}

/// The conversion of `MdN`: die count, side count, then the dice operator.
pub proof fn lemma_shunt_dice(m: i32, n: i32)
    requires
        0 <= m,
        0 <= n,
    ensures
        shunt_spec(dec_rep(m as nat) + seq!['d'] + dec_rep(n as nat)) == Ok::<
            Seq<Token>,
            RollError,
        >(counted_die_tokens(m, n)),
{
    let s = dec_rep(m as nat) + seq!['d'] + dec_rep(n as nat);
    let lm = dec_rep(m as nat).len() as int;
    lemma_dec_rep_digits(m as nat);
    lemma_dec_rep_digits(n as nat);
    assert(forall|j: int| 0 <= j < lm ==> is_digit(#[trigger] s[j])) by {
        assert(forall|j: int| 0 <= j < lm ==> s[j] == dec_rep(m as nat)[j]);
    }
    assert(s[lm] == 'd');
    assert(!is_digit('d') && 'd' != '.');
    assert(forall|j: int| lm + 1 <= j < s.len() ==> is_digit(#[trigger] s[j])) by {
        assert(forall|j: int|
            lm + 1 <= j < s.len() ==> s[j] == dec_rep(n as nat)[j - (lm + 1)]);
    }
    lemma_lit_end_digits(s, 1, lm);
    assert(s.subrange(0, lm) =~= dec_rep(m as nat));
    lemma_lit_scan_dec_rep(m as nat);
    let out1 = Seq::<Token>::empty().push(Token::Int(m));
    assert(shunt_loop(s, 0, Seq::empty(), Seq::empty()) == shunt_loop(s, lm, Seq::empty(), out1));
    assert(pop_ge(Seq::empty(), out1, 4) == (Seq::<Operator>::empty(), out1));
    let ops1 = Seq::<Operator>::empty().push(Operator::Dice);
    assert(shunt_loop(s, lm, Seq::empty(), out1) == shunt_loop(s, lm + 1, ops1, out1));
    lemma_lit_end_digits(s, lm + 2, s.len() as int);
    assert(s.subrange(lm + 1, s.len() as int) =~= dec_rep(n as nat));
    lemma_lit_scan_dec_rep(n as nat);
    let out2 = out1.push(Token::Int(n));
    assert(shunt_loop(s, lm + 1, ops1, out1) == shunt_loop(s, s.len() as int, ops1, out2));
    assert(ops1.drop_last() =~= Seq::<Operator>::empty());
    assert(drain_ops(Seq::<Operator>::empty(), out2.push(Token::Op(Operator::Dice)))
        == out2.push(Token::Op(Operator::Dice)));
    assert(drain_ops(ops1, out2) == out2.push(Token::Op(Operator::Dice)));
    assert(out2.push(Token::Op(Operator::Dice)) =~= counted_die_tokens(m, n));
}

/// Rendering is idempotent on whole numbers: the decimal numeral of `n`
/// converts to the one token `Int(n)`, evaluates to exactly that one-value
/// stack with no possible failure, and renders back to the same numeral.
pub proof fn lemma_integer_round_trip(n: i32)
    requires
        0 <= n,
    ensures
        shunt_spec(dec_rep(n as nat)) == Ok::<Seq<Token>, RollError>(numeral_tokens(n)),
        forall|st: Seq<Token>| #[trigger] reaches(numeral_tokens(n), st) <==> st == numeral_tokens(
            n,
        ),
        forall|e: RollError| !#[trigger] eval_fails(numeral_tokens(n), e),
        render_spec(Token::Int(n)) == dec_rep(n as nat),
{
    lemma_shunt_numeral(n);
    let toks = numeral_tokens(n);
    assert forall|st: Seq<Token>| #[trigger] reaches(toks, st) <==> st == toks by {
        lemma_reaches_operands(toks, st);
    }
    assert forall|e: RollError| !#[trigger] eval_fails(toks, e) by {
        assert forall|i: int, stack: Seq<Token>|
            !(0 <= i < toks.len() && #[trigger] reaches(toks.take(i), stack) && tok_step_err(
                stack,
                toks[i],
                e,
            )) by {
            if 0 <= i < toks.len() && reaches(toks.take(i), stack) {
                assert(toks.take(0) =~= Seq::<Token>::empty());
                lemma_reaches_nil_inv(toks.take(0), stack);
                assert(!tok_step_err(stack, toks[0], e));
            }
        }
        assert forall|stack: Seq<Token>| #[trigger] reaches(toks, stack) implies stack.len()
            == 1 by {
            lemma_reaches_operands(toks, stack);
        }
    }
}

/// A fraction always renders with a decimal point, and an integer never
/// does: a division's value is told apart from a whole number, and is in
/// particular never shown truncated to one.
pub proof fn lemma_fraction_rendering_distinct(num: int, den: int, v: int)
    requires
        den > 0,
    ensures
        ratio_rep(num, den).contains('.'),
        !int_rep(v).contains('.'),
        ratio_rep(num, den) != int_rep(v),
{
    let a = if num < 0 {
        (-num) as nat
    } else {
        num as nat
    };
    let sign: Seq<char> = if num < 0 {
        seq!['-']
    } else {
        Seq::empty()
    };
    let dot = sign.len() + dec_rep(a / den as nat).len();
    assert(ratio_rep(num, den)[dot as int] == '.');
    assert(ratio_rep(num, den).contains('.'));
    let r = if v < 0 {
        (-v) as nat
    } else {
        v as nat
    };
    lemma_dec_rep_digits(r);
    assert forall|i: int| 0 <= i < int_rep(v).len() implies int_rep(v)[i] != '.' by {
        if v < 0 {
            if i > 0 {
                assert(int_rep(v)[i] == dec_rep(r)[i - 1]);
                assert(is_digit(dec_rep(r)[i - 1]));
            }
        } else {
            assert(is_digit(dec_rep(r)[i]));
        }
    }
}

} // verus!