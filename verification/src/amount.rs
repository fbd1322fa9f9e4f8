//! Exact decimal hour amounts, kept as a whole number of fixed-size units.

use vstd::prelude::*;
use vstd::string::StringExecFns;
use crate::error::LedgerError;
use crate::text::{decimal_digits, decimal_text, digit_char};

verus! {

/// Number of fractional decimal digits that an amount keeps.
pub const SCALE: u32 = 28;

/// Ten to the power `n`.
pub open spec fn pow10(n: nat) -> int
    decreases n,
{
    if n == 0 {
        1
    } else {
        10 * pow10((n - 1) as nat)
    }
}

/// The number of units that stand for `mantissa / 10^scale` hours.
pub open spec fn scaled(mantissa: int, scale: nat) -> int {
    mantissa * pow10((SCALE - scale) as nat)
}

/// Whether `mantissa / 10^scale` can be held as an amount.
pub open spec fn representable(mantissa: int, scale: nat) -> bool {
    scale <= SCALE && i128::MIN <= scaled(mantissa, scale) <= i128::MAX
}

/// A signed quantity of hours, exact to `SCALE` decimal places.
///
/// One unit is `10^-SCALE` of an hour, so `units` is the quantity times
/// `10^SCALE`: an amount reaches a little beyond 17 thousand million hours
/// either way.
#[derive(Clone, Copy, Debug, PartialEq, Eq, Structural)]
pub struct Amount {
    pub units: i128,
}

pub proof fn lemma_pow10_positive(n: nat)
    ensures
        pow10(n) >= 1,
    decreases n,
{
    if n > 0 {
        lemma_pow10_positive((n - 1) as nat);
    }
}

/// Once `m * 10^k` has left the range of `i128`, so has `m * 10^(k + j)`.
proof fn lemma_scaling_grows(m: int, k: nat, j: nat)
    ensures
        m * pow10(k) > i128::MAX ==> m * pow10(k + j) > i128::MAX,
        m * pow10(k) < i128::MIN ==> m * pow10(k + j) < i128::MIN,
    decreases j,
{
    if j > 0 {
        lemma_scaling_grows(m, k, (j - 1) as nat);
        let p = pow10((k + j - 1) as nat);
        lemma_pow10_positive((k + j - 1) as nat);
        assert(pow10(k + j) == 10 * p);
        assert(m * (10 * p) == 10 * (m * p)) by (nonlinear_arith);
    }
}

impl Amount {
    /// The amount of zero hours.
    pub fn zero() -> (r: Amount)
        ensures
            r.units == 0,
    {
        Amount { units: 0 }
    }

    /// The amount that holds exactly `units` units.
    pub fn from_units(units: i128) -> (r: Amount)
        ensures
            r.units == units,
    {
        Amount { units }
    }

    /// Whether this is the amount of zero hours.
    pub fn is_zero(&self) -> (r: bool)
        ensures
            r == (self.units == 0),
    {
        self.units == 0
    }

    /// The amount `mantissa / 10^scale`, where it can be held exactly.
    pub fn from_parts(mantissa: i128, scale: u32) -> (r: Option<Amount>)
        ensures
            r == if representable(mantissa as int, scale as nat) {
                Some(Amount { units: scaled(mantissa as int, scale as nat) as i128 })
            } else {
                None
            },
    {
        if scale > SCALE {
            return None;
        }
        let steps: u32 = SCALE - scale;
        let mut units: i128 = mantissa;
        let mut done: u32 = 0;
        while done < steps
            invariant
                done <= steps,
                steps == SCALE - scale,
                units == mantissa * pow10(done as nat),
            decreases steps - done,
        {
            let next = units.checked_mul(10);
            proof {
                assert(pow10((done + 1) as nat) == 10 * pow10(done as nat));
                assert(units * 10 == mantissa * pow10((done + 1) as nat)) by (nonlinear_arith)
                    requires
                        units == mantissa * pow10(done as nat),
                        pow10((done + 1) as nat) == 10 * pow10(done as nat),
                ;
            }
            match next {
                Some(v) => {
                    units = v;
                },
                None => {
                    proof {
                        lemma_scaling_grows(
                            mantissa as int,
                            (done + 1) as nat,
                            (steps - done - 1) as nat,
                        );
                        assert((done + 1) as nat + (steps - done - 1) as nat == (SCALE - scale) as nat);
                    }
                    return None;
                },
            }
            done = done + 1;
        }
        Some(Amount { units })
    }
}

/// The largest mantissa, in absolute value, that rust_decimal holds: 96 bits.
pub const MAX_MANTISSA: u128 = 79_228_162_514_264_337_593_543_950_335;

/// The mantissa and the scale of the decimal number that rust_decimal reads
/// from `text`, where it reads one.
pub uninterp spec fn parsed_decimal(text: Seq<char>) -> Option<(i128, u32)>;

/// The text that rust_decimal writes for `mantissa / 10^scale`.
pub uninterp spec fn written_decimal(mantissa: i128, scale: u32) -> Seq<char>;

/// Calls rust_decimal's `Decimal::from_str`, and hands back the mantissa and
/// the scale of the number that it read, or `None` where it read none. What
/// it reads is a matter of the text alone.
#[verifier::external_body]
fn decimal_from_str(text: &str) -> (r: Option<(i128, u32)>)
    ensures
        r == parsed_decimal(text@),
{
    match text.parse::<rust_decimal::Decimal>() {
        Ok(number) => Some((number.mantissa(), number.scale())),
        Err(_) => None,
    }
}

/// Calls rust_decimal's `Decimal::from_i128_with_scale` and its `to_string`:
/// the text that rust_decimal writes for `mantissa / 10^scale`. The first
/// panics on a scale above 28 and on a mantissa of more than 96 bits.
#[verifier::external_body]
fn decimal_to_string(mantissa: i128, scale: u32) -> (r: String)
    requires
        scale <= SCALE,
        -(MAX_MANTISSA as int) <= mantissa <= MAX_MANTISSA as int,
    ensures
        r@ == written_decimal(mantissa, scale),
{
    rust_decimal::Decimal::from_i128_with_scale(mantissa, scale).to_string()
}

/// The amount of the given mantissa and scale, where there are both, the
/// amount can be held and it is not zero.
pub open spec fn non_zero_amount_of(parts: Option<(i128, u32)>) -> Result<Amount, LedgerError> {
    match parts {
        Some((mantissa, scale)) => if representable(mantissa as int, scale as nat) && scaled(
            mantissa as int,
            scale as nat,
        ) != 0 {
            Ok(Amount { units: scaled(mantissa as int, scale as nat) as i128 })
        } else {
            Err(LedgerError::InvalidAmount)
        },
        None => Err(LedgerError::InvalidAmount),
    }
}

/// The amount of the given mantissa and scale; refused where there is none,
/// where it cannot be held exactly, and where it is zero.
pub fn non_zero_amount(parts: Option<(i128, u32)>) -> (r: Result<Amount, LedgerError>)
    ensures
        r == non_zero_amount_of(parts),
{
    match parts {
        Some((mantissa, scale)) => match Amount::from_parts(mantissa, scale) {
            Some(amount) => if amount.is_zero() {
                Err(LedgerError::InvalidAmount)
            } else {
                Ok(amount)
            },
            None => Err(LedgerError::InvalidAmount),
        },
        None => Err(LedgerError::InvalidAmount),
    }
}

/// Reads an amount of hours from a decimal number; zero is refused.
pub fn parse_non_zero(text: &str) -> (r: Result<Amount, LedgerError>)
    ensures
        r == non_zero_amount_of(parsed_decimal(text@)),
{
    non_zero_amount(decimal_from_str(text))
}

/// Whether `mantissa / 10^scale` is the amount of `units` units, written
/// with as few fractional digits as it takes.
pub open spec fn is_normal_form(units: int, mantissa: int, scale: nat) -> bool {
    &&& scale <= SCALE
    &&& scaled(mantissa, scale) == units
    &&& scale == 0 || mantissa % 10 != 0
}

impl Amount {
    /// The amount as a mantissa and a scale, with as few fractional digits as
    /// it takes; `None` for the one amount whose mantissa no `i128` holds.
    pub fn normal_form(&self) -> (r: Option<(i128, u32)>)
        ensures
            match r {
                Some((mantissa, scale)) => is_normal_form(
                    self.units as int,
                    mantissa as int,
                    scale as nat,
                ),
                None => self.units == i128::MIN,
            },
    {
        if self.units == i128::MIN {
            return None;
        }
        let negative = self.units < 0;
        let mut size: i128 = if negative {
            -self.units
        } else {
            self.units
        };
        let mut scale: u32 = SCALE;
        while scale > 0 && size % 10 == 0
            invariant
                0 <= size,
                scale <= SCALE,
                size * pow10((SCALE - scale) as nat) == (if negative {
                    -self.units
                } else {
                    self.units as int
                }),
            decreases scale,
        {
            proof {
                let p = pow10((SCALE - scale) as nat);
                assert(pow10((SCALE - scale + 1) as nat) == 10 * p);
                assert((size / 10) * (10 * p) == size * p) by (nonlinear_arith)
                    requires
                        size % 10 == 0,
                        0 <= size,
                ;
            }
            size = size / 10;
            scale = scale - 1;
        }
        let mantissa: i128 = if negative {
            -size
        } else {
            size
        };
        proof {
            let p = pow10((SCALE - scale) as nat);
            assert((-size) * p == -(size * p)) by (nonlinear_arith);
        }
        Some((mantissa, scale))
    }

    /// The amount as rust_decimal writes it, with as few fractional digits as
    /// it takes; `None` where the amount has more digits than rust_decimal holds.
    pub fn to_text(&self) -> (r: Option<String>)
        ensures
            match r {
                Some(text) => exists|mantissa: i128, scale: u32|
                    is_normal_form(self.units as int, mantissa as int, scale as nat)
                        && #[trigger] written_decimal(mantissa, scale) == text@,
                None => forall|mantissa: i128, scale: u32| #[trigger]
                    is_normal_form(self.units as int, mantissa as int, scale as nat) ==> !(-(
                    MAX_MANTISSA as int) <= mantissa <= MAX_MANTISSA as int),
            },
    {
        match self.normal_form() {
            Some((mantissa, scale)) => {
                if mantissa < -79_228_162_514_264_337_593_543_950_335 || mantissa
                    > 79_228_162_514_264_337_593_543_950_335 {
                    proof {
                        assert forall|m: i128, s: u32| #[trigger]
                            is_normal_form(self.units as int, m as int, s as nat) implies m
                            == mantissa by {
                            lemma_normal_form_unique(
                                self.units as int,
                                m as int,
                                s as nat,
                                mantissa as int,
                                scale as nat,
                            );
                        }
                    }
                    None
                } else {
                    Some(decimal_to_string(mantissa, scale))
                }
            },
            None => {
                proof {
                    assert forall|m: i128, s: u32| #[trigger]
                        is_normal_form(self.units as int, m as int, s as nat) implies !(-(
                    MAX_MANTISSA as int) <= m <= MAX_MANTISSA as int) by {
                        if s < SCALE {
                            let rest = pow10((SCALE - s - 1) as nat);
                            let k = m * rest;
                            assert(pow10((SCALE - s) as nat) == 10 * rest);
                            assert(m * (10 * rest) == 10 * k) by (nonlinear_arith)
                                requires
                                    k == m * rest,
                            ;
                            assert(i128::MIN == 10 * k);
                        } else {
                            assert(m * 1 == m);
                        }
                    }
                }
                None
            },
        }
    }
}

/// The absolute value of a number of units.
pub open spec fn magnitude(units: int) -> int {
    if units < 0 {
        -units
    } else {
        units
    }
}

/// How an amount is shown: its sign where it is below zero, its whole hours,
/// a point, and the first fractional digit; what follows that digit is cut off.
pub open spec fn shown(units: int) -> Seq<char> {
    let sign = if units < 0 {
        "-"@
    } else {
        ""@
    };
    let whole = magnitude(units) / 10000000000000000000000000000;
    let tenth = (magnitude(units) / 1000000000000000000000000000) % 10;
    sign + decimal_digits(whole as nat) + "."@ + seq![digit_char(tenth)]
}

impl Amount {
    /// The amount as it is shown: cut off behind the first fractional digit.
    pub fn to_display(&self) -> (r: String)
        ensures
            r@ == shown(self.units as int),
    {
        let negative = self.units < 0;
        let size: u128 = if self.units == i128::MIN {
            170141183460469231731687303715884105728
        } else if negative {
            (-self.units) as u128
        } else {
            self.units as u128
        };
        let whole: u128 = size / 10000000000000000000000000000;
        let tenth: u128 = (size / 1000000000000000000000000000) % 10;
        let mut out = if negative {
            String::from_str("-")
        } else {
            String::from_str("")
        };
        out.append(decimal_text(whole as u64).as_str());
        out.append(".");
        out.append(decimal_text(tenth as u64).as_str());
        out
    }
}

/// Powers of ten multiply as their exponents add.
proof fn lemma_pow10_sum(a: nat, b: nat)
    ensures
        pow10(a + b) == pow10(a) * pow10(b),
    decreases b,
{
    if b > 0 {
        lemma_pow10_sum(a, (b - 1) as nat);
        let pa = pow10(a);
        let pb = pow10((b - 1) as nat);
        assert(pow10(a + b) == 10 * pow10((a + b - 1) as nat));
        assert(10 * (pa * pb) == pa * (10 * pb)) by (nonlinear_arith);
    } else {
        assert(pow10(a) * 1 == pow10(a));
    }
}

/// Two normal forms of one number of units are the same; here for the case
/// that the first has the smaller scale.
proof fn lemma_normal_form_ordered(units: int, m1: int, s1: nat, m2: int, s2: nat)
    requires
        is_normal_form(units, m1, s1),
        is_normal_form(units, m2, s2),
        s1 <= s2,
    ensures
        m1 == m2,
        s1 == s2,
{
    let d = (s2 - s1) as nat;
    let p = pow10((SCALE - s2) as nat);
    let q = pow10(d);
    lemma_pow10_sum((SCALE - s2) as nat, d);
    lemma_pow10_positive((SCALE - s2) as nat);
    assert(pow10((SCALE - s1) as nat) == p * q);
    assert((m1 * q - m2) * p == 0) by (nonlinear_arith)
        requires
            m1 * (p * q) == m2 * p,
    ;
    assert(m1 * q - m2 == 0) by (nonlinear_arith)
        requires
            (m1 * q - m2) * p == 0,
            p >= 1,
    ;
    if d > 0 {
        let r = pow10((d - 1) as nat);
        let k = m1 * r;
        assert(q == 10 * r);
        assert(m1 * (10 * r) == 10 * k) by (nonlinear_arith)
            requires
                k == m1 * r,
        ;
        assert(m2 == 10 * k);
        assert(m2 % 10 == 0);
    } else {
        assert(m1 * 1 == m1);
    }
}

/// An amount has only one normal form.
pub proof fn lemma_normal_form_unique(units: int, m1: int, s1: nat, m2: int, s2: nat)
    requires
        is_normal_form(units, m1, s1),
        is_normal_form(units, m2, s2),
    ensures
        m1 == m2,
        s1 == s2,
{
    if s1 <= s2 {
        lemma_normal_form_ordered(units, m1, s1, m2, s2);
    } else {
        lemma_normal_form_ordered(units, m2, s2, m1, s1);
    }
}

} // verus!
