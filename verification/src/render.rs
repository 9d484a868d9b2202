//! Rendering of evaluated values as text.
//!
//! Integers render as plain decimal. Fractions render with a sign, an
//! integer part, a decimal point and the first [`FRAC_DIGITS`] digits of the
//! decimal expansion, with trailing zeros dropped down to at least one
//! digit, so that a fractional value is always told apart from an integer.

use vstd::arithmetic::div_mod::lemma_mul_mod_noop_left;
use vstd::arithmetic::div_mod::lemma_small_mod;
use vstd::prelude::*;
use vstd::string::StringExecFns;

use crate::FRAC_DIGITS;

verus! {

/// The decimal digit character for `d`.
pub open spec fn dec_digit(d: int) -> char {
    if d == 0 {
        '0'
    } else if d == 1 {
        '1'
    } else if d == 2 {
        '2'
    } else if d == 3 {
        '3'
    } else if d == 4 {
        '4'
    } else if d == 5 {
        '5'
    } else if d == 6 {
        '6'
    } else if d == 7 {
        '7'
    } else if d == 8 {
        '8'
    } else {
        '9'
    }
}

/// The plain decimal representation of a non-negative number.
pub open spec fn dec_rep(n: nat) -> Seq<char>
    decreases n,
{
    if n < 10 {
        seq![dec_digit(n as int)]
    } else {
        dec_rep(n / 10).push(dec_digit((n % 10) as int))
    }
}

/// The plain decimal representation of an integer, a leading minus sign
/// included.
pub open spec fn int_rep(n: int) -> Seq<char> {
    if n < 0 {
        seq!['-'] + dec_rep((-n) as nat)
    } else {
        dec_rep(n as nat)
    }
}

/// `10^k`.
pub open spec fn pow10(k: nat) -> nat
    decreases k,
{
    if k == 0 {
        1
    } else {
        10 * pow10((k - 1) as nat)
    }
}

/// A power of ten is positive.
pub proof fn lemma_pow10_pos(k: nat)
    ensures
        pow10(k) >= 1,
    decreases k,
{
    if k > 0 {
        lemma_pow10_pos((k - 1) as nat);
    }
}

/// What remains of `num / den` after the first `j` digits of the decimal
/// expansion of the fractional part, scaled to a numerator below `den`.
pub open spec fn frac_rem(num: nat, den: nat, j: nat) -> nat
    recommends
        den > 0,
{
    (num * pow10(j)) % den
}

/// Digit `j` (counting from zero) of the decimal expansion of `num / den`.
pub open spec fn frac_digit(num: nat, den: nat, j: nat) -> int
    recommends
        den > 0,
{
    (frac_rem(num, den, j) * 10) as int / den as int
}

/// The first `k` digits of the decimal expansion of `num / den`.
pub open spec fn frac_digits(num: nat, den: nat, k: nat) -> Seq<int>
    recommends
        den > 0,
{
    Seq::new(k, |j: int| frac_digit(num, den, j as nat))
}

/// Digit values as digit characters.
pub open spec fn digit_chars(ds: Seq<int>) -> Seq<char> {
    ds.map_values(|d: int| dec_digit(d))
}

/// Trailing zeros removed, down to at least one digit.
pub open spec fn trim_zeros(ds: Seq<int>) -> Seq<int>
    decreases ds.len(),
{
    if ds.len() <= 1 {
        ds
    } else if ds.last() == 0 {
        trim_zeros(ds.drop_last())
    } else {
        ds
    }
}

/// The rendering of the fraction `num / den`: sign, integer part, decimal
/// point, and the trimmed first `FRAC_DIGITS` expansion digits.
pub open spec fn ratio_rep(num: int, den: int) -> Seq<char>
    recommends
        den > 0,
{
    let a = if num < 0 {
        (-num) as nat
    } else {
        num as nat
    };
    let sign: Seq<char> = if num < 0 {
        seq!['-']
    } else {
        Seq::empty()
    };
    sign + dec_rep(a / den as nat) + seq!['.'] + digit_chars(
        trim_zeros(frac_digits(a % den as nat, den as nat, FRAC_DIGITS as nat)),
    )
}

/// Relies on `String::push`, which appends one character.
#[verifier::external_body]
pub(crate) fn push_char(s: &mut String, c: char)
    ensures
        final(s)@ == old(s)@.push(c),
{
    s.push(c);
}

/// The digit character for a digit value, as a one-character string.
fn digit_str(d: u64) -> (s: &'static str)
    requires
        0 <= d < 10,
    ensures
        s@ == seq![dec_digit(d as int)],
{
    proof {
        reveal_strlit("0");
        reveal_strlit("1");
        reveal_strlit("2");
        reveal_strlit("3");
        reveal_strlit("4");
        reveal_strlit("5");
        reveal_strlit("6");
        reveal_strlit("7");
        reveal_strlit("8");
        reveal_strlit("9");
    }
    let s = if d == 0 {
        "0"
    } else if d == 1 {
        "1"
    } else if d == 2 {
        "2"
    } else if d == 3 {
        "3"
    } else if d == 4 {
        "4"
    } else if d == 5 {
        "5"
    } else if d == 6 {
        "6"
    } else if d == 7 {
        "7"
    } else if d == 8 {
        "8"
    } else {
        "9"
    };
    proof {
        assert(s@ =~= seq![dec_digit(d as int)]);
    }
    s
}

/// Renders a non-negative number as plain decimal.
pub fn render_u64(n: u64) -> (s: String)
    ensures
        s@ == dec_rep(n as nat),
    decreases n,
{
    if n < 10 {
        let s = digit_str(n).to_owned();
        proof {
            assert(s@ =~= dec_rep(n as nat));
        }
        s
    } else {
        let mut s = render_u64(n / 10);
        s.append(digit_str(n % 10));
        proof {
            assert(s@ =~= dec_rep(n as nat));
        }
        s
    }
}

/// Renders an integer as plain decimal, a leading minus sign included.
pub fn render_i64(n: i64) -> (s: String)
    requires
        n > i64::MIN,
    ensures
        s@ == int_rep(n as int),
{
    if n < 0 {
        let mut s = "-".to_owned();
        proof {
            reveal_strlit("-");
        }
        let m = render_u64((-n) as u64);
        s.append(m.as_str());
        proof {
            assert(s@ =~= int_rep(n as int));
        }
        s
    } else {
        render_u64(n as u64)
    }
}

/// One digit of a scaled remainder below the divisor is below ten.
proof fn lemma_digit_below_ten(r: int, d: int)
    by (nonlinear_arith)
    requires
        d > 0,
        0 <= r < d,
    ensures
        0 <= (r * 10) / d < 10,
        0 <= r * 10 <= 10 * d - 10,
{
}

/// Renders the fraction `num / den` with sign, integer part and trimmed
/// fractional digits.
pub fn render_ratio(num: i64, den: i64) -> (s: String)
    requires
        num > i64::MIN,
        den > 0,
    ensures
        s@ == ratio_rep(num as int, den as int),
{
    let a: u64 = if num < 0 {
        (-num) as u64
    } else {
        num as u64
    };
    let d: u64 = den as u64;
    let mut s = if num < 0 {
        proof {
            reveal_strlit("-");
        }
        "-".to_owned()
    } else {
        proof {
            reveal_strlit("");
        }
        "".to_owned()
    };
    let whole = render_u64(a / d);
    s.append(whole.as_str());
    proof {
        reveal_strlit(".");
    }
    s.append(".");

    // The expansion digits of the fractional part.
    let ghost r0 = (a % d) as nat;
    let ghost dn = d as nat;
    let mut digits: Vec<u64> = Vec::new();
    let mut rem: u64 = a % d;
    proof {
        assert(pow10(0) == 1);
        assert(r0 * 1 == r0);
        lemma_small_mod(r0, dn);
        assert(rem == frac_rem(r0, dn, 0));
    }
    let mut i: u64 = 0;
    while i < FRAC_DIGITS
        invariant
            0 < d <= i64::MAX,
            dn == d as nat,
            i <= FRAC_DIGITS,
            rem < d,
            rem == frac_rem(r0, dn, i as nat),
            digits@.len() == i,
            forall|j: int|
                0 <= j < i ==> #[trigger] digits@[j] == frac_digit(r0, dn, j as nat) && 0 <= digits@[j]
                    < 10,
        decreases FRAC_DIGITS - i,
    {
        proof {
            lemma_digit_below_ten(rem as int, d as int);
        }
        let scaled: u128 = (rem as u128) * 10;
        let digit: u64 = (scaled / (d as u128)) as u64;
        proof {
            let p = pow10(i as nat);
            assert(pow10((i + 1) as nat) == 10 * p);
            lemma_mul_mod_noop_left((r0 * p) as int, 10, d as int);
            assert(r0 * p * 10 == r0 * (10 * p)) by (nonlinear_arith);
        }
        rem = (scaled % (d as u128)) as u64;
        digits.push(digit);
        i = i + 1;
    }

    // Trailing zeros go, down to at least one digit.
    let ghost full = frac_digits(r0, dn, FRAC_DIGITS as nat);
    proof {
        assert(digits@.map_values(|x: u64| x as int) =~= full);
    }
    while digits.len() > 1 && digits[digits.len() - 1] == 0
        invariant
            digits@.len() >= 1,
            forall|j: int| 0 <= j < digits@.len() ==> 0 <= #[trigger] digits@[j] < 10,
            trim_zeros(digits@.map_values(|x: u64| x as int)) == trim_zeros(full),
        decreases digits@.len(),
    {
        let ghost before = digits@.map_values(|x: u64| x as int);
        digits.pop();
        proof {
            assert(digits@.map_values(|x: u64| x as int) =~= before.drop_last());
        }
    }
    let ghost kept = digits@.map_values(|x: u64| x as int);
    proof {
        assert(trim_zeros(kept) == kept);
        assert(kept == trim_zeros(full));
    }

    // Append the kept digits.
    let ghost base = s@;
    let mut k: usize = 0;
    while k < digits.len()
        invariant
            k <= digits@.len(),
            forall|j: int| 0 <= j < digits@.len() ==> 0 <= #[trigger] digits@[j] < 10,
            kept == digits@.map_values(|x: u64| x as int),
            s@ == base + digit_chars(kept.take(k as int)),
        decreases digits@.len() - k,
    {
        s.append(digit_str(digits[k]));
        proof {
            assert(s@ =~= base + digit_chars(kept.take(k + 1)));
        }
        k = k + 1;
    }
    proof {
        assert(kept.take(digits@.len() as int) =~= kept);
        assert(s@ =~= ratio_rep(num as int, den as int));
    }
    s
}

} // verus!
