//! A dice-notation expression engine for a tabletop-RPG chat bot, together
//! with the bot's small pieces of pure command logic.
//!
//! The engine takes an expression such as `3d6+2` or `4d6kh3*2`, converts it
//! to postfix order with a shunting-yard pass, evaluates it with an operand
//! stack (rolling dice as it goes), and renders the final value as text.
//! Non-integer values are exact fractions rendered to a fixed number of
//! fractional digits, so division never truncates and arithmetic never
//! wraps: a value out of range is an error, never a wrong number.

pub mod aon;
pub mod eight_ball;
pub mod error;
pub mod eval;
pub mod events;
pub mod gelbooru;
pub mod laws;
pub mod markov;
pub mod perks;
pub mod ratio;
pub mod render;
mod rng;
pub mod roll;
pub mod shares;
pub mod shunt;
pub mod token;

use vstd::prelude::*;

verus! {

/// The number of fractional digits kept when a non-integer value is rendered.
pub const FRAC_DIGITS: u64 = 10;

} // verus!
