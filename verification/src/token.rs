//! Operators and tokens of the dice-notation language.
//!
//! A token is a tagged value: an integer literal, a non-integer literal held
//! as an exact fraction, an operator, or the outcome of a dice roll. The
//! arithmetic on tokens follows one promotion rule: if either operand is a
//! fraction the result is a fraction, and division always is, so that it
//! never truncates.

use vstd::prelude::*;

use crate::error::RollError;
use crate::ratio::Ratio;
use crate::roll::Roll;

verus! {

/// An operator of the dice-notation language. Parentheses only group during
/// conversion and carry no precedence.
#[derive(Clone, Copy, Debug, PartialEq, Eq, Structural)]
pub enum Operator {
    Dice,
    KeepHighest,
    KeepLowest,
    Add,
    Sub,
    Mul,
    Div,
    LParen,
    RParen,
}

impl Operator {
    /// The binding strength of each operator: dice bind tightest, then the
    /// keep filters, then multiplication and division, then addition and
    /// subtraction. All operators are left-associative.
    pub open spec fn precedence_spec(self) -> u8 {
        match self {
            Operator::Dice => 4,
            Operator::KeepHighest => 3,
            Operator::KeepLowest => 3,
            Operator::Mul => 2,
            Operator::Div => 2,
            Operator::Add => 1,
            Operator::Sub => 1,
            Operator::LParen => 0,
            Operator::RParen => 0,
        }
    }

    /// The binding strength used by the shunting-yard conversion.
    pub fn precedence(&self) -> (p: u8)
        ensures
            p == self.precedence_spec(),
    {
        match self {
            Operator::Dice => 4,
            Operator::KeepHighest | Operator::KeepLowest => 3,
            Operator::Mul | Operator::Div => 2,
            Operator::Add | Operator::Sub => 1,
            _ => 0,
        }
    }
}

/// One token of a dice expression.
#[derive(Clone, Debug)]
pub enum Token {
    Int(i32),
    Float(Ratio),
    Op(Operator),
    DiceRoll(Roll),
}

impl Token {
    /// Whether the token is a usable value: a literal or a roll.
    pub open spec fn is_operand(self) -> bool {
        match self {
            Token::Op(_) => false,
            _ => true,
        }
    }

    /// Whether the token coerces to an integer: a roll stands for its total.
    pub open spec fn is_intlike(self) -> bool {
        match self {
            Token::Int(_) => true,
            Token::DiceRoll(_) => true,
            _ => false,
        }
    }

    /// The integer an integer-like token stands for.
    pub open spec fn int_value(self) -> int
        recommends
            self.is_intlike(),
    {
        match self {
            Token::Int(n) => n as int,
            Token::DiceRoll(r) => r.spec_total(),
            _ => 0,
        }
    }

    /// Whether the value an operand stands for is well-formed.
    pub open spec fn wf(self) -> bool {
        match self {
            Token::Float(r) => r.wf(),
            Token::DiceRoll(r) => r.wf(),
            _ => true,
        }
    }

    /// The fraction an operand stands for: an integer or a roll total over 1.
    pub open spec fn as_ratio(self) -> Ratio
        recommends
            self.is_operand(),
    {
        match self {
            Token::Float(r) => r,
            Token::Int(n) => Ratio { num: n as i64, den: 1 },
            Token::DiceRoll(r) => Ratio { num: r.spec_total() as i64, den: 1 },
            Token::Op(_) => Ratio { num: 0, den: 1 },
        }
    }

    /// The precedence of an operator token; any other token has none.
    pub fn precedence(&self) -> (p: u8)
        ensures
            p == match *self {
                Token::Op(op) => op.precedence_spec(),
                _ => 0,
            },
    {
        match self {
            Token::Op(op) => op.precedence(),
            _ => 0,
        }
    }

    /// The integer the token coerces to, or `NotAnOperand` exactly on tokens
    /// that coerce to none.
    pub fn as_int(self) -> (r: Result<i32, RollError>)
        requires
            self.wf(),
        ensures
            match r {
                Ok(n) => self.is_intlike() && n == self.int_value(),
                Err(e) => !self.is_intlike() && e == RollError::NotAnOperand,
            },
    {
        match self {
            Token::Int(n) => Ok(n),
            Token::DiceRoll(roll) => Ok(roll.total()),
            _ => Err(RollError::NotAnOperand),
        }
    }

    /// The roll held by a roll token, or `NotAnOperand` exactly on every
    /// other token.
    pub fn roll(self) -> (r: Result<Roll, RollError>)
        ensures
            match r {
                Ok(roll) => self == Token::DiceRoll(roll),
                Err(e) => !(self is DiceRoll) && e == RollError::NotAnOperand,
            },
    {
        match self {
            Token::DiceRoll(roll) => Ok(roll),
            _ => Err(RollError::NotAnOperand),
        }
    }
}

/// Whether an exact integer fits the engine's integer range.
pub open spec fn fits_i32(n: int) -> bool {
    i32::MIN <= n <= i32::MAX
}

/// What adding two tokens yields: integers add as integers, any fraction
/// promotes the result to a fraction, and a result out of range is
/// `Overflow`.
pub open spec fn add_spec(lhs: Token, rhs: Token) -> Result<Token, RollError> {
    if !lhs.is_operand() || !rhs.is_operand() {
        Err(RollError::NotAnOperand)
    } else if lhs.is_intlike() && rhs.is_intlike() {
        let v = lhs.int_value() + rhs.int_value();
        if fits_i32(v) {
            Ok(Token::Int(v as i32))
        } else {
            Err(RollError::Overflow)
        }
    } else {
        let a = lhs.as_ratio();
        let b = rhs.as_ratio();
        let n = a.num * b.den + b.num * a.den;
        let d = a.den * b.den;
        if crate::ratio::fits(n) && crate::ratio::fits(d) {
            Ok(Token::Float(Ratio { num: n as i64, den: d as i64 }))
        } else {
            Err(RollError::Overflow)
        }
    }
}

/// What subtracting `rhs` from `lhs` yields, under the same promotion rule.
pub open spec fn sub_spec(lhs: Token, rhs: Token) -> Result<Token, RollError> {
    if !lhs.is_operand() || !rhs.is_operand() {
        Err(RollError::NotAnOperand)
    } else if lhs.is_intlike() && rhs.is_intlike() {
        let v = lhs.int_value() - rhs.int_value();
        if fits_i32(v) {
            Ok(Token::Int(v as i32))
        } else {
            Err(RollError::Overflow)
        }
    } else {
        let a = lhs.as_ratio();
        let b = rhs.as_ratio();
        let n = a.num * b.den - b.num * a.den;
        let d = a.den * b.den;
        if crate::ratio::fits(n) && crate::ratio::fits(d) {
            Ok(Token::Float(Ratio { num: n as i64, den: d as i64 }))
        } else {
            Err(RollError::Overflow)
        }
    }
}

/// What multiplying two tokens yields, under the same promotion rule.
pub open spec fn mul_spec(lhs: Token, rhs: Token) -> Result<Token, RollError> {
    if !lhs.is_operand() || !rhs.is_operand() {
        Err(RollError::NotAnOperand)
    } else if lhs.is_intlike() && rhs.is_intlike() {
        let v = lhs.int_value() * rhs.int_value();
        if fits_i32(v) {
            Ok(Token::Int(v as i32))
        } else {
            Err(RollError::Overflow)
        }
    } else {
        let a = lhs.as_ratio();
        let b = rhs.as_ratio();
        let n = a.num * b.num;
        let d = a.den * b.den;
        if crate::ratio::fits(n) && crate::ratio::fits(d) {
            Ok(Token::Float(Ratio { num: n as i64, den: d as i64 }))
        } else {
            Err(RollError::Overflow)
        }
    }
}

/// What dividing `lhs` by `rhs` yields: always a fraction, never truncated;
/// a zero right operand is `DivisionByZero`.
pub open spec fn div_spec(lhs: Token, rhs: Token) -> Result<Token, RollError> {
    if !lhs.is_operand() || !rhs.is_operand() {
        Err(RollError::NotAnOperand)
    } else {
        let a = lhs.as_ratio();
        let b = rhs.as_ratio();
        if b.num == 0 {
            Err(RollError::DivisionByZero)
        } else {
            let n = if b.num > 0 {
                a.num * b.den
            } else {
                -(a.num * b.den)
            };
            let d = if b.num > 0 {
                a.den * b.num
            } else {
                a.den * -b.num
            };
            if crate::ratio::fits(n) && crate::ratio::fits(d) {
                Ok(Token::Float(Ratio { num: n as i64, den: d as i64 }))
            } else {
                Err(RollError::Overflow)
            }
        }
    }
}

impl Token {
    /// The fraction the operand stands for, as a value.
    fn to_ratio(&self) -> (r: Ratio)
        requires
            self.is_operand(),
            self.wf(),
        ensures
            r == self.as_ratio(),
            r.wf(),
    {
        match self {
            Token::Float(r) => *r,
            Token::Int(n) => Ratio::from_int(*n),
            Token::DiceRoll(roll) => Ratio::from_int(roll.total()),
            Token::Op(_) => Ratio::from_int(0),
        }
    }

    /// `self + rhs`, as [`add_spec`] says.
    pub fn add(self, rhs: Token) -> (r: Result<Token, RollError>)
        requires
            self.wf(),
            rhs.wf(),
        ensures
            r == add_spec(self, rhs),
            r matches Ok(t) ==> t.wf(),
    {
        if !self.is_op() && !rhs.is_op() {
            if self.is_float() || rhs.is_float() {
                match self.to_ratio().add(rhs.to_ratio()) {
                    Ok(q) => Ok(Token::Float(q)),
                    Err(e) => Err(e),
                }
            } else {
                let a = self.as_int()?;
                let b = rhs.as_int()?;
                match a.checked_add(b) {
                    Some(v) => Ok(Token::Int(v)),
                    None => Err(RollError::Overflow),
                }
            }
        } else {
            Err(RollError::NotAnOperand)
        }
    }

    /// `self - rhs`, as [`sub_spec`] says.
    pub fn sub(self, rhs: Token) -> (r: Result<Token, RollError>)
        requires
            self.wf(),
            rhs.wf(),
        ensures
            r == sub_spec(self, rhs),
            r matches Ok(t) ==> t.wf(),
    {
        if !self.is_op() && !rhs.is_op() {
            if self.is_float() || rhs.is_float() {
                match self.to_ratio().sub(rhs.to_ratio()) {
                    Ok(q) => Ok(Token::Float(q)),
                    Err(e) => Err(e),
                }
            } else {
                let a = self.as_int()?;
                let b = rhs.as_int()?;
                match a.checked_sub(b) {
                    Some(v) => Ok(Token::Int(v)),
                    None => Err(RollError::Overflow),
                }
            }
        } else {
            Err(RollError::NotAnOperand)
        }
    }

    /// `self * rhs`, as [`mul_spec`] says.
    pub fn mul(self, rhs: Token) -> (r: Result<Token, RollError>)
        requires
            self.wf(),
            rhs.wf(),
        ensures
            r == mul_spec(self, rhs),
            r matches Ok(t) ==> t.wf(),
    {
        if !self.is_op() && !rhs.is_op() {
            if self.is_float() || rhs.is_float() {
                match self.to_ratio().mul(rhs.to_ratio()) {
                    Ok(q) => Ok(Token::Float(q)),
                    Err(e) => Err(e),
                }
            } else {
                let a = self.as_int()?;
                let b = rhs.as_int()?;
                match a.checked_mul(b) {
                    Some(v) => Ok(Token::Int(v)),
                    None => Err(RollError::Overflow),
                }
            }
        } else {
            Err(RollError::NotAnOperand)
        }
    }

    /// `self / rhs`, as [`div_spec`] says: true division, always a fraction.
    pub fn div(self, rhs: Token) -> (r: Result<Token, RollError>)
        requires
            self.wf(),
            rhs.wf(),
        ensures
            r == div_spec(self, rhs),
            r matches Ok(t) ==> t.wf(),
    {
        if !self.is_op() && !rhs.is_op() {
            match self.to_ratio().div(rhs.to_ratio()) {
                Ok(q) => Ok(Token::Float(q)),
                Err(e) => Err(e),
            }
        } else {
            Err(RollError::NotAnOperand)
        }
    }

    /// Renders the token as the evaluator's final text: integers and roll
    /// totals as plain decimal, fractions as
    /// [`ratio_rep`](crate::render::ratio_rep) says; an operator is no
    /// value and fails with `NotAnOperand`.
    pub fn render(self) -> (r: Result<String, RollError>)
        requires
            self.wf(),
        ensures
            match r {
                Ok(s) => self.is_operand() && s@ == crate::eval::render_spec(self),
                Err(e) => !self.is_operand() && e == RollError::NotAnOperand,
            },
    {
        match self {
            Token::Int(n) => Ok(crate::render::render_i64(n as i64)),
            Token::Float(q) => Ok(crate::render::render_ratio(q.num, q.den)),
            Token::DiceRoll(roll) => {
                let t = roll.total();
                Ok(crate::render::render_i64(t as i64))
            },
            Token::Op(_) => Err(RollError::NotAnOperand),
        }
    }

    /// Whether the token is an operator.
    fn is_op(&self) -> (b: bool)
        ensures
            b == !self.is_operand(),
    {
        match self {
            Token::Op(_) => true,
            _ => false,
        }
    }

    /// Whether the token is a fraction literal.
    fn is_float(&self) -> (b: bool)
        ensures
            b == (*self is Float),
    {
        match self {
            Token::Float(_) => true,
            _ => false,
        }
    }
}

} // verus!
