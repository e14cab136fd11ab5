//! Rounding never lengthens the text of a number.

use vstd::prelude::*;
use vstd::arithmetic::div_mod::lemma_fundamental_div_mod;
use vstd::arithmetic::div_mod::lemma_fundamental_div_mod_converse;
use vstd::arithmetic::div_mod::lemma_mod_bound;
use crate::convert::rounded_units;
use crate::number::abs;
use crate::number::fraction_width;
use crate::number::lemma_fraction_width;
use crate::number::lemma_pow10_monotonic;
use crate::number::lemma_pow10_positive;
use crate::number::lemma_pow10_values;
use crate::number::lemma_round_units;
use crate::number::lemma_round_units_bounded;
use crate::number::lemma_width_of;
use crate::number::number_text;
use crate::number::pow10;
use crate::number::round_units;
use crate::number::step_of;
use crate::number::width_of;
use crate::number::MAX_UNITS;
use crate::number::SCALE;
use crate::number::UNIT;
use crate::roundtrip::lemma_number_text_parts;

verus! {

/// The next number has at most one digit more.
pub proof fn lemma_width_of_next(n: nat)
    ensures
        width_of(n + 1) <= width_of(n) + 1,
    decreases n,
{
    if n >= 10 {
        lemma_width_of_next(n / 10);
        if (n + 1) / 10 == n / 10 {
        } else {
            assert((n + 1) / 10 == n / 10 + 1);
        }
    } else if n == 9 {
        assert(width_of(10) == 1 + width_of(1)) by {
            assert(10nat / 10 == 1);
        }
    }
}

/// A fraction that is no multiple of ten to the `k` has a digit among its
/// last `k`.
pub proof fn lemma_fraction_width_low(f: nat, width: nat, k: nat)
    requires
        k <= width,
        f % (pow10(k) as nat) != 0,
    ensures
        fraction_width(f, width) + k > width,
    decreases k,
{
    lemma_pow10_values();
    lemma_pow10_positive(k);
    if k == 0 {
        assert(f % 1 == 0);
    } else if f % 10 != 0 {
    } else {
        // the last digit is zero, so a tenth is no multiple of the power
        // before
        let p = pow10((k - 1) as nat);
        lemma_pow10_positive((k - 1) as nat);
        assert(pow10(k) == 10 * p);
        lemma_fundamental_div_mod(f as int, 10);
        let g = f / 10;
        if g % (p as nat) == 0 {
            lemma_fundamental_div_mod(g as int, p);
            let q = g as int / p;
            assert(f == (10 * p) * q) by (nonlinear_arith)
                requires
                    f == 10 * g,
                    g == p * q,
            ;
            lemma_fundamental_div_mod_converse(f as int, 10 * p, q, 0);
        }
        lemma_fraction_width_low(g, (width - 1) as nat, (k - 1) as nat);
    }
}

/// A fraction that is a multiple of ten to the `k` has no digit among its
/// last `k`.
pub proof fn lemma_fraction_width_high(f: nat, width: nat, k: nat)
    requires
        k <= width,
        f % (pow10(k) as nat) == 0,
    ensures
        fraction_width(f, width) + k <= width,
    decreases k,
{
    lemma_pow10_values();
    lemma_pow10_positive(k);
    lemma_fraction_width(f, width);
    if k > 0 && f != 0 {
        let p = pow10((k - 1) as nat);
        lemma_pow10_positive((k - 1) as nat);
        assert(pow10(k) == 10 * p);
        lemma_fundamental_div_mod(f as int, 10 * p);
        let q = f as int / (10 * p);
        assert(f == 10 * (p * q)) by (nonlinear_arith)
            requires
                f == (10 * p) * q,
        ;
        lemma_fundamental_div_mod_converse(f as int, 10, p * q, 0);
        let g = f / 10;
        assert(g == p * q);
        lemma_fundamental_div_mod_converse(g as int, p, q, 0);
        lemma_fraction_width_high(g, (width - 1) as nat, (k - 1) as nat);
    }
}

/// Number of characters of the text of the number of `v` units.
pub open spec fn text_len(v: int) -> int {
    number_text(v).len() as int
}

/// Rounding a magnitude to a power of ten keeps its whole part or makes
/// it the next whole number.
#[verifier::rlimit(40)]
proof fn lemma_round_parts(a: int, k: nat)
    requires
        0 <= a,
        k <= SCALE,
    ensures
        ({
            let r = round_units(a, pow10(k));
            let whole = a / (UNIT as int);
            &&& r >= 0
            &&& r % pow10(k) == 0
            &&& r / (UNIT as int) == whole && (r % (UNIT as int)) % pow10(k) == 0 || r == (whole
                + 1) * UNIT
        }),
{
    lemma_pow10_values();
    lemma_pow10_positive(k);
    lemma_pow10_monotonic(k, 9);
    let step = pow10(k);
    let unit = UNIT as int;
    let r = round_units(a, step);
    lemma_round_units(a, step);
    let whole = a / unit;
    lemma_fundamental_div_mod(a, unit);
    lemma_mod_bound(a, unit);
    lemma_fundamental_div_mod(unit, step);
    let per = unit / step;
    assert(unit == step * per);
    lemma_fundamental_div_mod(r, step);
    let q = r / step;
    assert(r == step * q);
    // the whole below is a multiple of the step, and so is the next
    let low = whole * unit;
    assert(low == step * (per * whole)) by (nonlinear_arith)
        requires
            low == whole * unit,
            unit == step * per,
    ;
    assert(2 * (r - a) <= step && 2 * (a - r) <= step);
    assert(low <= a < low + unit);
    // between two multiples of the step there is none that is nearer than
    // a step to both
    assert(q >= per * whole) by (nonlinear_arith)
        requires
            step * q > step * (per * whole) - step,
            step > 0,
    ;
    assert(q <= per * whole + per) by (nonlinear_arith)
        requires
            step * q < step * (per * whole) + step * per + step,
            step > 0,
    ;
    if q == per * whole + per {
        assert(r == (whole + 1) * unit) by (nonlinear_arith)
            requires
                r == step * q,
                q == per * whole + per,
                unit == step * per,
        ;
    } else {
        let rest = q - per * whole;
        assert(r == unit * whole + step * rest) by (nonlinear_arith)
            requires
                r == step * q,
                rest == q - per * whole,
                unit == step * per,
        ;
        assert(0 <= step * rest < unit) by (nonlinear_arith)
            requires
                0 <= rest < per,
                unit == step * per,
                step > 0,
        ;
        lemma_fundamental_div_mod_converse(r, unit, whole, step * rest);
        lemma_fundamental_div_mod_converse(step * rest, step, rest, 0);
    }
}

/// Rounding to a power of ten never lengthens the text of a number.
#[verifier::rlimit(40)]
pub proof fn lemma_round_units_no_longer(v: int, k: nat)
    requires
        -MAX_UNITS <= v <= MAX_UNITS,
        k <= SCALE,
    ensures
        text_len(round_units(v, pow10(k))) <= text_len(v),
{
    lemma_pow10_values();
    lemma_pow10_positive(k);
    lemma_pow10_monotonic(k, 9);
    lemma_pow10_monotonic(k, 18);
    let step = pow10(k);
    let unit = UNIT as int;
    let r = round_units(v, step);
    lemma_round_units(v, step);
    lemma_round_units_bounded(v, step, MAX_UNITS as int);
    if r != v {
        let a = abs(v);
        let ra = abs(r);
        assert(ra == round_units(a, step));
        lemma_round_parts(a, k);
        lemma_number_text_parts(v);
        lemma_number_text_parts(r);
        let whole = a / unit;
        let frac = a % unit;
        lemma_fundamental_div_mod(a, unit);
        lemma_mod_bound(a, unit);
        // the number has a digit among the last that go
        assert(frac % step != 0) by {
            if frac % step == 0 {
                lemma_fundamental_div_mod(frac, step);
                lemma_fundamental_div_mod(unit, step);
                let per = unit / step;
                let q = frac / step;
                assert(a == step * (per * whole + q)) by (nonlinear_arith)
                    requires
                        a == unit * whole + frac,
                        unit == step * per,
                        frac == step * q,
                ;
                lemma_fundamental_div_mod_converse(a, step, per * whole + q, 0);
                if v >= 0 {
                    assert(v % step == 0);
                } else {
                    assert(v == step * (-(per * whole + q))) by (nonlinear_arith)
                        requires
                            -v == step * (per * whole + q),
                    ;
                    lemma_fundamental_div_mod_converse(v, step, -(per * whole + q), 0);
                }
            }
        }
        lemma_fraction_width_low(frac as nat, SCALE as nat, k);
        lemma_width_of(whole as nat);
        lemma_width_of_next(whole as nat);
        let rfrac = ra % unit;
        if ra / unit == whole && rfrac % step == 0 {
            lemma_mod_bound(ra, unit);
            lemma_fraction_width_high(rfrac as nat, SCALE as nat, k);
        } else {
            assert(ra == (whole + 1) * unit);
            lemma_fundamental_div_mod_converse(ra, unit, whole + 1, 0);
        }
    }
}

/// Rounding never lengthens the text of a number: the text of what
/// rounding gives has no more characters than the text of what is
/// rounded.
pub proof fn lemma_rounded_no_longer(precision: int, v: int, error: int)
    requires
        -MAX_UNITS <= v <= MAX_UNITS,
    ensures
        text_len(rounded_units(precision, v, error)) <= text_len(v),
{
    lemma_pow10_values();
    if 0 < precision < 20 {
        if precision <= SCALE {
            lemma_round_units_no_longer(v, (SCALE - precision) as nat);
            lemma_round_units_no_longer(v, (SCALE - precision + 1) as nat);
        } else {
            lemma_round_units(v, 1);
            assert(v % 1 == 0);
        }
        assert(step_of((precision - 1) as nat) == if precision - 1 >= SCALE {
            1
        } else {
            pow10((SCALE - precision + 1) as nat)
        });
    } else {
        lemma_round_units_no_longer(v, 9);
    }
}

} // verus!
