//! Thresholds: the least share at which a part of a whole counts.
//!
//! A threshold is a number of percent written as `mantissa * 10^exponent`,
//! so that a decimal number is taken exactly as it is written. Shares are
//! compared with it in whole numbers.

use crate::power::{
    lemma_pow10_monotone, lemma_pow10_positive, lemma_pow10_values, pow10, power_of_ten,
};
use crate::path::push_all;
use crate::text::{
    all_digits, chars_of, copy_range, decimal_value, digits_value, find_char, first_index,
    parse_i64, parse_i64_spec,
};
use vstd::prelude::*;

verus! {

/// A share in percent: `mantissa * 10^exponent`.
#[derive(Debug, Clone, Copy, PartialEq, Eq, Structural)]
pub struct Threshold {
    pub mantissa: i64,
    pub exponent: i32,
}

/// Whether `part` of `whole` is a share of at least `threshold` percent:
/// whether `100 * part >= mantissa * 10^exponent * whole`.
pub open spec fn reaches(part: int, whole: int, threshold: Threshold) -> bool {
    if threshold.exponent >= 0 {
        100 * part >= threshold.mantissa * pow10(threshold.exponent as int) * whole
    } else {
        100 * part * pow10(-(threshold.exponent as int)) >= threshold.mantissa * whole
    }
}

/// A threshold of a whole number of percent is reached exactly where a
/// hundred times the part is at least that number of times the whole.
pub proof fn lemma_reaches_percent(part: int, whole: int, percent: i64)
    ensures
        reaches(part, whole, Threshold { mantissa: percent, exponent: 0 }) <==> 100 * part >= percent
            * whole,
{
    assert(pow10(0) == 1);
    assert(percent * 1 * whole == percent * whole) by (nonlinear_arith);
}

/// A share that reaches a threshold reaches every lower threshold with the
/// same exponent.
pub proof fn lemma_reaches_lower(part: int, whole: int, threshold: Threshold, lower: Threshold)
    requires
        whole >= 0,
        part >= 0,
        lower.exponent == threshold.exponent,
        lower.mantissa <= threshold.mantissa,
        reaches(part, whole, threshold),
    ensures
        reaches(part, whole, lower),
{
    let p = pow10(if threshold.exponent >= 0 {
        threshold.exponent as int
    } else {
        -(threshold.exponent as int)
    });
    lemma_pow10_positive(threshold.exponent as int);
    lemma_pow10_positive(-(threshold.exponent as int));
    let (m, l) = (threshold.mantissa as int, lower.mantissa as int);
    if threshold.exponent >= 0 {
        assert(l * p * whole <= m * p * whole) by (nonlinear_arith)
            requires
                l <= m,
                p >= 1,
                whole >= 0,
        ;
    } else {
        assert(l * whole <= m * whole) by (nonlinear_arith)
            requires
                l <= m,
                whole >= 0,
        ;
    }
}

/// A written number without the sign that it begins with, if it has one.
pub open spec fn unsigned_part(text: Seq<char>) -> Seq<char> {
    if text.len() > 0 && (text[0] == '+' || text[0] == '-') {
        text.skip(1)
    } else {
        text
    }
}

/// What stands before the exponent mark `e` of a written number.
pub open spec fn number_part(body: Seq<char>) -> Seq<char> {
    body.take(first_index(body, 'e'))
}

/// What stands behind the exponent mark `e` of a written number, if it has
/// one.
pub open spec fn exponent_part(body: Seq<char>) -> Option<Seq<char>> {
    let at = first_index(body, 'e');
    if 0 <= at < body.len() {
        Some(body.skip(at + 1))
    } else {
        None
    }
}

/// What stands before the decimal point.
pub open spec fn whole_part(number: Seq<char>) -> Seq<char> {
    number.take(first_index(number, '.'))
}

/// What stands behind the decimal point; nothing where there is no point.
pub open spec fn fraction_part(number: Seq<char>) -> Seq<char> {
    let at = first_index(number, '.');
    if 0 <= at < number.len() {
        number.skip(at + 1)
    } else {
        Seq::empty()
    }
}

/// The threshold that a text writes: an optional sign, decimal digits with
/// an optional decimal point among them, and an optional exponent of ten
/// behind the mark `e`. The digits, read without the point, are the mantissa;
/// the exponent is the written one less the number of digits behind the
/// point. `None` where the text is written otherwise, where the mantissa
/// does not fit in 63 bits, or where the exponent does not fit in 32 bits.
pub open spec fn written_threshold(text: Seq<char>) -> Option<Threshold> {
    let body = unsigned_part(text);
    let number = number_part(body);
    let digits = whole_part(number) + fraction_part(number);
    let marked = match exponent_part(body) {
        Some(x) => parse_i64_spec(x),
        None => Some(0i64),
    };
    if digits.len() == 0 || !all_digits(digits) || decimal_value(digits) > i64::MAX {
        None
    } else {
        match marked {
            None => None,
            Some(x) => {
                let exponent = x - fraction_part(number).len();
                let mantissa = if text[0] == '-' {
                    -decimal_value(digits)
                } else {
                    decimal_value(digits)
                };
                if i32::MIN <= exponent <= i32::MAX {
                    Some(Threshold { mantissa: mantissa as i64, exponent: exponent as i32 })
                } else {
                    None
                }
            },
        }
    }
}

impl Threshold {
    /// The threshold of a whole number of percent.
    pub fn percent(whole: i64) -> (threshold: Threshold)
        ensures
            threshold == (Threshold { mantissa: whole, exponent: 0 }),
    {
        Threshold { mantissa: whole, exponent: 0 }
    }

    /// Reads a threshold as it is written in decimal, such as `80`, `66.666`
    /// or `1.5e1`.
    pub fn parse(text: &str) -> (threshold: Option<Threshold>)
        ensures
            threshold == written_threshold(text@),
    {
        let chars = chars_of(text);
        let signed = chars.len() > 0 && (chars[0] == '+' || chars[0] == '-');
        let negative = chars.len() > 0 && chars[0] == '-';
        let body = copy_range(&chars, if signed { 1 } else { 0 }, chars.len());
        proof {
            assert(body@ =~= unsigned_part(text@));
        }
        let mark = find_char(&body, 'e');
        let number = copy_range(&body, 0, mark);
        let point = find_char(&number, '.');
        let mut digits = copy_range(&number, 0, point);
        let fraction = if point < number.len() {
            copy_range(&number, point + 1, number.len())
        } else {
            Vec::new()
        };
        push_all(&mut digits, &fraction);
        proof {
            assert(number@ =~= number_part(body@));
            assert(fraction@ =~= fraction_part(number@));
            assert(digits@ =~= whole_part(number@) + fraction_part(number@));
        }
        if digits.len() == 0 {
            return None;
        }
        let magnitude = match digits_value(&digits, 0x7fff_ffff_ffff_ffff) {
            Some(v) => v,
            None => {
                return None;
            },
        };
        let marked: i64 = if mark < body.len() {
            let written = copy_range(&body, mark + 1, body.len());
            proof {
                assert(written@ =~= exponent_part(body@)->0);
            }
            match parse_i64(&written) {
                Some(x) => x,
                None => {
                    return None;
                },
            }
        } else {
            0
        };
        let exponent: i128 = marked as i128 - fraction.len() as i128;
        if exponent < -0x8000_0000 || exponent > 0x7fff_ffff {
            return None;
        }
        let mantissa: i64 = if negative {
            -(magnitude as i64)
        } else {
            magnitude as i64
        };
        Some(Threshold { mantissa, exponent: exponent as i32 })
    }
}

/// Decides whether `part` of `whole` is a share of at least `threshold`
/// percent.
pub fn reaches_threshold(part: usize, whole: usize, threshold: Threshold) -> (yes: bool)
    ensures
        yes == reaches(part as int, whole as int, threshold),
{
    let ghost m = threshold.mantissa as int;
    let ghost t = whole as int;
    let ghost e = threshold.exponent as int;
    let ghost size = pow10(if e >= 0 {
        e
    } else {
        -e
    });
    proof {
        lemma_pow10_positive(e);
        lemma_pow10_positive(-e);
        lemma_pow10_values();
    }
    let a: u128 = (part as u128) * 100;
    if threshold.mantissa <= 0 {
        proof {
            assert(m * size * t <= 0) by (nonlinear_arith)
                requires
                    m <= 0,
                    size >= 1,
                    t >= 0,
            ;
            assert(m * t <= 0) by (nonlinear_arith)
                requires
                    m <= 0,
                    t >= 0,
            ;
            assert(a * size >= 0) by (nonlinear_arith)
                requires
                    a >= 0,
                    size >= 1,
            ;
        }
        return true;
    }
    assert(m * t < 0x8000_0000_0000_0000_0000_0000_0000_0000) by (nonlinear_arith)
        requires
            0 < m < 0x8000_0000_0000_0000,
            0 <= t < 0x1_0000_0000_0000_0000,
    ;
    assert(m * t >= 0) by (nonlinear_arith)
        requires
            0 < m,
            0 <= t,
    ;
    let needed: u128 = (threshold.mantissa as u128) * (whole as u128);
    if needed == 0 {
        proof {
            assert(t == 0) by (nonlinear_arith)
                requires
                    m * t == 0,
                    m > 0,
            ;
            assert(m * size * t == 0) by (nonlinear_arith)
                requires
                    t == 0,
            ;
            assert(a * size >= 0) by (nonlinear_arith)
                requires
                    a >= 0,
                    size >= 1,
            ;
        }
        return true;
    }
    if threshold.exponent >= 0 {
        if threshold.exponent >= 22 {
            proof {
                lemma_pow10_monotone(22, e);
                assert(m * size * t >= size) by (nonlinear_arith)
                    requires
                        m * t >= 1,
                        size >= 1,
                ;
            }
            return false;
        }
        let p = power_of_ten(threshold.exponent as u32);
        proof {
            let (x, y, z) = (a as int, needed as int, p as int);
            assert(m * size * t == y * z) by (nonlinear_arith)
                requires
                    y == m * t,
                    z == size,
            ;
            assert(x >= y * z <==> x / z >= y) by (nonlinear_arith)
                requires
                    z > 0,
                    x >= 0,
                    y >= 0,
            ;
        }
        a / p >= needed
    } else {
        let k: i64 = -(threshold.exponent as i64);
        if k >= 39 {
            proof {
                lemma_pow10_monotone(39, -e);
                let x = a as int;
                if x >= 1 {
                    assert(x * size >= size) by (nonlinear_arith)
                        requires
                            x >= 1,
                            size >= 1,
                    ;
                } else {
                    assert(x * size == 0) by (nonlinear_arith)
                        requires
                            x == 0,
                    ;
                }
            }
            return a >= 1;
        }
        let p = power_of_ten(k as u32);
        let whole_part = needed / p;
        let rest = needed % p;
        proof {
            let (x, y, z) = (a as int, needed as int, p as int);
            let (q, r) = (whole_part as int, rest as int);
            assert(y == q * z + r && 0 <= r < z) by (nonlinear_arith)
                requires
                    q == y / z,
                    r == y % z,
                    z > 0,
                    y >= 0,
            ;
            assert(x * z >= y <==> (if r == 0 {
                x >= q
            } else {
                x > q
            })) by (nonlinear_arith)
                requires
                    y == q * z + r,
                    0 <= r < z,
                    x >= 0,
                    q >= 0,
            ;
        }
        if rest == 0 {
            a >= whole_part
        } else {
            a > whole_part
        }
    }
}

} // verus!
