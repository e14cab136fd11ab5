//! Fixed-point decimal numbers.
//!
//! Every numeric argument of a path command is a [`Number`]: a signed count of
//! billionths. Sums, differences and decimal rounding of such numbers are
//! exact, so what the rounding to a precision does to a value, and by how
//! much it moves it, can be stated.

use vstd::prelude::*;
use vstd::arithmetic::div_mod::lemma_fundamental_div_mod;
use vstd::arithmetic::div_mod::lemma_mod_bound;
use vstd::arithmetic::div_mod::lemma_div_pos_is_pos;
use vstd::arithmetic::div_mod::lemma_fundamental_div_mod_converse;
use vstd::arithmetic::mul::lemma_mul_is_commutative;

verus! {

/// Number of decimal places a [`Number`] holds.
pub const SCALE: u32 = 9;

/// Units in the value one: ten to the power [`SCALE`].
pub const UNIT: i64 = 1_000_000_000;

/// Largest magnitude, in units, of a well-formed [`Number`].
pub const MAX_UNITS: i64 = 1_000_000_000_000_000_000;

/// Ten to the power `n`.
pub open spec fn pow10(n: nat) -> int
    decreases n,
{
    if n == 0 {
        1
    } else {
        10 * pow10((n - 1) as nat)
    }
}

/// The magnitude of `v`.
pub open spec fn abs(v: int) -> int {
    if v < 0 {
        -v
    } else {
        v
    }
}

/// The multiple of `step` nearest to `v`; a tie goes away from zero.
pub open spec fn round_units(v: int, step: int) -> int
    recommends
        step > 0,
{
    if v >= 0 {
        ((v + step / 2) / step) * step
    } else {
        -(((-v + step / 2) / step) * step)
    }
}

/// Units in the last digit kept when a number is cut to `digits` decimal
/// places. From [`SCALE`] places on nothing is cut.
pub open spec fn step_of(digits: nat) -> int {
    if digits >= SCALE {
        1
    } else {
        pow10((SCALE - digits) as nat)
    }
}

/// `v` rounded to `digits` decimal places, in units.
pub open spec fn fixed_units(v: int, digits: nat) -> int {
    round_units(v, step_of(digits))
}

/// A power of ten is at least one.
pub proof fn lemma_pow10_positive(n: nat)
    ensures
        pow10(n) >= 1,
    decreases n,
{
    if n > 0 {
        lemma_pow10_positive((n - 1) as nat);
    }
}

/// The power of a sum is the product of the powers.
pub proof fn lemma_pow10_add(a: nat, b: nat)
    ensures
        pow10(a + b) == pow10(a) * pow10(b),
    decreases a,
{
    if a == 0 {
        assert(pow10(a + b) == 1 * pow10(b));
    } else {
        lemma_pow10_add((a - 1) as nat, b);
        assert(pow10(a + b) == 10 * pow10((a - 1 + b) as nat));
        assert(10 * (pow10((a - 1) as nat) * pow10(b)) == (10 * pow10((a - 1) as nat)) * pow10(b))
            by (nonlinear_arith);
    }
}

/// The powers of ten up to the eighteenth.
pub proof fn lemma_pow10_values()
    ensures
        pow10(0) == 1,
        pow10(1) == 10,
        pow10(2) == 100,
        pow10(3) == 1_000,
        pow10(4) == 10_000,
        pow10(5) == 100_000,
        pow10(6) == 1_000_000,
        pow10(7) == 10_000_000,
        pow10(8) == 100_000_000,
        pow10(9) == 1_000_000_000,
        pow10(10) == 10_000_000_000,
        pow10(11) == 100_000_000_000,
        pow10(12) == 1_000_000_000_000,
        pow10(13) == 10_000_000_000_000,
        pow10(14) == 100_000_000_000_000,
        pow10(15) == 1_000_000_000_000_000,
        pow10(16) == 10_000_000_000_000_000,
        pow10(17) == 100_000_000_000_000_000,
        pow10(18) == 1_000_000_000_000_000_000,
{
    reveal_with_fuel(pow10, 20);
}

/// A lower power of ten is not above a higher one and divides it.
pub proof fn lemma_pow10_monotonic(a: nat, b: nat)
    requires
        a <= b,
    ensures
        pow10(a) <= pow10(b),
        pow10(b) % pow10(a) == 0,
    decreases b - a,
{
    lemma_pow10_positive(a);
    if a < b {
        lemma_pow10_monotonic(a, (b - 1) as nat);
        let q = pow10((b - 1) as nat) / pow10(a);
        lemma_fundamental_div_mod(pow10((b - 1) as nat), pow10(a));
        assert(pow10(b) == pow10(a) * (10 * q)) by (nonlinear_arith)
            requires
                pow10(b) == 10 * pow10((b - 1) as nat),
                pow10((b - 1) as nat) == pow10(a) * q,
        ;
        lemma_fundamental_div_mod_converse(pow10(b), pow10(a), 10 * q, 0);
    } else {
        lemma_fundamental_div_mod_converse(pow10(a), pow10(a), 1, 0);
    }
}

/// Rounding moves a value by at most half a step, to a multiple of the step.
pub proof fn lemma_round_units(v: int, step: int)
    requires
        step > 0,
    ensures
        round_units(v, step) % step == 0,
        2 * abs(round_units(v, step) - v) <= step,
        v >= 0 ==> round_units(v, step) >= 0,
        v <= 0 ==> round_units(v, step) <= 0,
        v % step == 0 ==> round_units(v, step) == v,
{
    let a = abs(v);
    let h = step / 2;
    let q = (a + h) / step;
    lemma_fundamental_div_mod(a + h, step);
    lemma_mod_bound(a + h, step);
    lemma_div_pos_is_pos(a + h, step);
    lemma_mul_is_commutative(step, q);
    let r = q * step;
    assert(r == a + h - (a + h) % step);
    assert(2 * h <= step < 2 * h + 2);
    assert(round_units(v, step) == if v >= 0 { r } else { -r });
    assert(r >= 0) by (nonlinear_arith)
        requires
            q >= 0,
            step > 0,
            r == q * step,
    ;
    lemma_fundamental_div_mod_converse(r, step, q, 0);
    assert(-r == step * (-q)) by (nonlinear_arith)
        requires
            r == q * step,
    ;
    lemma_fundamental_div_mod_converse(-r, step, -q, 0);
    assert(0int % step == 0) by {
        lemma_fundamental_div_mod_converse(0, step, 0, 0);
    }
    if v % step == 0 {
        lemma_fundamental_div_mod(v, step);
        let k = v / step;
        assert(v == step * k);
        let ka = if v >= 0 { k } else { -k };
        assert(a == step * ka) by (nonlinear_arith)
            requires
                v == step * k,
                a == abs(v),
                ka == if v >= 0 { k } else { -k },
        ;
        assert(0 <= h < step);
        lemma_fundamental_div_mod_converse(a + h, step, ka, h);
        assert(q == ka);
        assert(r == a) by (nonlinear_arith)
            requires
                r == q * step,
                a == step * ka,
                q == ka,
        ;
    }
}

/// A bound that is itself a multiple of the step survives rounding.
pub proof fn lemma_round_units_bounded(v: int, step: int, bound: int)
    requires
        step > 0,
        bound >= 0,
        bound % step == 0,
        abs(v) <= bound,
    ensures
        abs(round_units(v, step)) <= bound,
{
    let a = abs(v);
    let h = step / 2;
    let q = (a + h) / step;
    lemma_round_units(v, step);
    lemma_fundamental_div_mod(a + h, step);
    lemma_fundamental_div_mod(bound, step);
    lemma_mod_bound(a + h, step);
    let b = bound / step;
    assert(bound == step * b);
    // a + h < bound + step, so the quotient cannot exceed b
    assert(q <= b) by (nonlinear_arith)
        requires
            a + h == step * q + (a + h) % step,
            0 <= (a + h) % step,
            bound == step * b,
            a <= bound,
            h < step,
            step > 0,
    ;
    assert(q * step <= bound) by (nonlinear_arith)
        requires
            q <= b,
            bound == step * b,
            step > 0,
    ;
    lemma_div_pos_is_pos(a + h, step);
    assert(q * step >= 0) by (nonlinear_arith)
        requires
            q >= 0,
            step > 0,
    ;
}

/// A decimal number with [`SCALE`] decimal places, held as a count of units.
#[derive(Clone, Copy, Debug, PartialEq, Eq, Structural)]
pub struct Number {
    pub units: i64,
}

impl View for Number {
    type V = int;

    open spec fn view(&self) -> int {
        self.units as int
    }
}

/// Ten to the power `n`, for the powers an `i64` holds.
pub fn pow10_exec(n: u32) -> (r: i64)
    requires
        n <= 18,
    ensures
        r == pow10(n as nat),
        1 <= r <= MAX_UNITS,
{
    let mut r: i64 = 1;
    let mut i: u32 = 0;
    proof {
        lemma_pow10_values();
    }
    while i < n
        invariant
            i <= n <= 18,
            r == pow10(i as nat),
            1 <= r <= pow10(18),
            pow10(18) == 1_000_000_000_000_000_000,
        decreases n - i,
    {
        proof {
            lemma_pow10_monotonic((i + 1) as nat, 18);
        }
        r = r * 10;
        i = i + 1;
    }
    r
}

impl Number {
    /// The magnitude is within [`MAX_UNITS`].
    pub open spec fn wf(self) -> bool {
        -MAX_UNITS <= self.units <= MAX_UNITS
    }

    /// Whether the magnitude is within [`MAX_UNITS`].
    pub fn is_wf(&self) -> (r: bool)
        ensures
            r == self.wf(),
    {
        -MAX_UNITS <= self.units && self.units <= MAX_UNITS
    }

    /// The number of `units` billionths, if it is in range.
    pub fn from_units(units: i64) -> (r: Option<Number>)
        ensures
            r == if -MAX_UNITS <= units <= MAX_UNITS {
                Some(Number { units })
            } else {
                None
            },
    {
        if -MAX_UNITS <= units && units <= MAX_UNITS {
            Some(Number { units })
        } else {
            None
        }
    }

    /// The number zero.
    pub fn zero() -> (r: Number)
        ensures
            r@ == 0,
            r.wf(),
    {
        Number { units: 0 }
    }

    /// The sum, if it is in range.
    pub fn checked_add(self, other: Number) -> (r: Option<Number>)
        requires
            self.wf(),
            other.wf(),
        ensures
            r == if abs(self@ + other@) <= MAX_UNITS {
                Some(Number { units: (self@ + other@) as i64 })
            } else {
                None
            },
    {
        Number::from_units(self.units + other.units)
    }

    /// The number without its sign.
    pub fn magnitude(self) -> (r: Number)
        requires
            self.wf(),
        ensures
            r@ == abs(self@),
            r.wf(),
    {
        if self.units < 0 {
            Number { units: -self.units }
        } else {
            self
        }
    }

    /// The number rounded to `digits` decimal places, half away from zero.
    pub fn to_fixed(self, digits: u32) -> (r: Number)
        requires
            self.wf(),
        ensures
            r@ == fixed_units(self@, digits as nat),
            r.wf(),
    {
        if digits >= SCALE {
            proof {
                lemma_round_units(self@, 1);
            }
            return self;
        }
        let step: i64 = pow10_exec(SCALE - digits);
        proof {
            lemma_pow10_values();
            lemma_pow10_monotonic((SCALE - digits) as nat, 18);
            lemma_round_units(self@, step as int);
            lemma_round_units_bounded(self@, step as int, MAX_UNITS as int);
            lemma_pow10_monotonic((SCALE - digits) as nat, 9);
        }
        if self.units >= 0 {
            let q: i64 = (self.units + step / 2) / step;
            assert(q * step == round_units(self@, step as int));
            Number { units: q * step }
        } else {
            let q: i64 = (-self.units + step / 2) / step;
            assert(q * step == -round_units(self@, step as int));
            Number { units: -(q * step) }
        }
    }
}

/// The character of the decimal digit `d`.
pub open spec fn digit_char(d: int) -> char {
    if d == 0 {
        '0'
    } else if d == 1 {
        '1'
    } else if d == 2 {
        '2'
    } else if d == 3 {
        '3'
    } else if d == 4 {
        '4'
    } else if d == 5 {
        '5'
    } else if d == 6 {
        '6'
    } else if d == 7 {
        '7'
    } else if d == 8 {
        '8'
    } else {
        '9'
    }
}

/// The decimal digit that `c` writes, if it is one.
pub open spec fn digit_value(c: char) -> Option<int> {
    if c == '0' {
        Some(0)
    } else if c == '1' {
        Some(1)
    } else if c == '2' {
        Some(2)
    } else if c == '3' {
        Some(3)
    } else if c == '4' {
        Some(4)
    } else if c == '5' {
        Some(5)
    } else if c == '6' {
        Some(6)
    } else if c == '7' {
        Some(7)
    } else if c == '8' {
        Some(8)
    } else if c == '9' {
        Some(9)
    } else {
        None
    }
}

/// Number of decimal digits of `n`; zero has one.
pub open spec fn width_of(n: nat) -> nat
    decreases n,
{
    if n < 10 {
        1
    } else {
        1 + width_of(n / 10)
    }
}

/// The last `width` decimal digits of `n`, most significant first.
pub open spec fn padded_text(n: nat, width: nat) -> Seq<char> {
    Seq::new(width, |i: int| digit_char((n / (pow10((width - 1 - i) as nat) as nat)) as int % 10))
}

/// Number of digits of the fraction `f` of `width` places up to its last
/// digit that is not zero.
pub open spec fn fraction_width(f: nat, width: nat) -> nat
    decreases width,
{
    if f == 0 || width == 0 {
        0
    } else if f % 10 != 0 {
        width
    } else {
        fraction_width(f / 10, (width - 1) as nat)
    }
}

/// The whole part of a number of magnitude `a` units, as it is written:
/// nothing for a zero before a fraction.
pub open spec fn whole_text(a: nat) -> Seq<char> {
    let whole = a / (UNIT as nat);
    if whole == 0 && a % (UNIT as nat) != 0 {
        Seq::empty()
    } else {
        padded_text(whole, width_of(whole))
    }
}

/// The fraction of a number of magnitude `a` units, as it is written: a
/// point and the decimal places up to the last that is not zero, or
/// nothing.
pub open spec fn fraction_text(a: nat) -> Seq<char> {
    let frac = a % (UNIT as nat);
    if frac == 0 {
        Seq::empty()
    } else {
        seq!['.'] + padded_text(frac, SCALE as nat).take(fraction_width(frac, SCALE as nat) as int)
    }
}

/// The shortest decimal text of the number of `v` units: no zero before a
/// point, no zero at the end of a fraction, no point without a fraction.
pub open spec fn number_text(v: int) -> Seq<char> {
    let sign = if v < 0 {
        seq!['-']
    } else {
        Seq::empty()
    };
    sign + whole_text(abs(v) as nat) + fraction_text(abs(v) as nat)
}

/// A number lies between the powers of ten of its width.
pub proof fn lemma_width_of(n: nat)
    ensures
        width_of(n) >= 1,
        n < pow10(width_of(n)),
        n >= 10 ==> n >= pow10((width_of(n) - 1) as nat),
    decreases n,
{
    lemma_pow10_values();
    if n >= 10 {
        lemma_width_of(n / 10);
    }
}

/// A fraction that is not zero has a digit to write, and no more than its
/// width.
pub proof fn lemma_fraction_width(f: nat, width: nat)
    ensures
        fraction_width(f, width) <= width,
        f != 0 && f < pow10(width) ==> fraction_width(f, width) >= 1,
    decreases width,
{
    lemma_pow10_values();
    if f != 0 && width > 0 && f % 10 == 0 {
        lemma_fraction_width(f / 10, (width - 1) as nat);
    }
}

/// The character of a decimal digit.
pub fn digit_char_exec(d: u8) -> (c: char)
    requires
        d < 10,
    ensures
        c == digit_char(d as int),
{
    match d {
        0 => '0',
        1 => '1',
        2 => '2',
        3 => '3',
        4 => '4',
        5 => '5',
        6 => '6',
        7 => '7',
        8 => '8',
        _ => '9',
    }
}

/// Number of decimal digits of `n`.
pub fn width_of_exec(n: u64) -> (w: u32)
    ensures
        w == width_of(n as nat),
        1 <= w <= 20,
{
    let mut w: u32 = 1;
    let mut rest: u64 = n;
    while rest >= 10
        invariant
            width_of(n as nat) == (w - 1) + width_of(rest as nat),
            1 <= w,
            w <= 20,
            rest as nat * pow10((w - 1) as nat) <= n,
        decreases rest,
    {
        proof {
            lemma_pow10_values();
            let r = rest as nat;
            let p = pow10((w - 1) as nat);
            lemma_pow10_positive((w - 1) as nat);
            assert((r / 10) * (10 * p) <= r * p) by (nonlinear_arith)
                requires
                    p >= 1,
                    r >= 0,
            ;
            assert(pow10(w as nat) == 10 * p);
            if w == 20 {
                lemma_pow10_monotonic(19, (w - 1) as nat);
                assert(pow10(19) == 10 * pow10(18));
                assert(r * p >= 10 * p) by (nonlinear_arith)
                    requires
                        r >= 10,
                        p >= 1,
                ;
            }
        }
        rest = rest / 10;
        w = w + 1;
    }
    w
}

/// Appends the last `width` decimal digits of `n` to `out`, but not the
/// digits after the first `keep`.
pub fn write_digits(n: u64, width: u32, keep: u32, out: &mut Vec<char>)
    requires
        1 <= width <= 19,
        keep <= width,
    ensures
        final(out)@ == old(out)@ + padded_text(n as nat, width as nat).take(keep as int),
{
    let mut power: u64 = pow10_exec(width - 1) as u64;
    let mut i: u32 = 0;
    let ghost text = padded_text(n as nat, width as nat);
    while i < keep
        invariant
            i <= keep <= width <= 19,
            i < width ==> power == pow10((width - 1 - i) as nat),
            out@ == old(out)@ + text.take(i as int),
            text == padded_text(n as nat, width as nat),
        decreases keep - i,
    {
        proof {
            lemma_pow10_positive((width - 1 - i) as nat);
        }
        let digit: u64 = (n / power) % 10;
        let c = digit_char_exec(digit as u8);
        assert(c == text[i as int]);
        out.push(c);
        assert(text.take(i as int + 1) =~= text.take(i as int).push(c));
        i = i + 1;
        if i < width {
            proof {
                lemma_pow10_positive((width - 1 - i) as nat);
            }
            power = power / 10;
        }
    }
}

impl Number {
    /// Number of characters of the text of the number.
    pub fn text_len(&self) -> (r: usize)
        requires
            self.wf(),
        ensures
            r == number_text(self@).len(),
            1 <= r <= 21,
    {
        let a: u64 = if self.units < 0 {
            (-self.units) as u64
        } else {
            self.units as u64
        };
        let whole: u64 = a / (UNIT as u64);
        let frac: u64 = a % (UNIT as u64);
        let sign: usize = if self.units < 0 {
            1
        } else {
            0
        };
        proof {
            lemma_pow10_values();
            lemma_width_of(whole as nat);
            lemma_fraction_width(frac as nat, SCALE as nat);
            if width_of(whole as nat) > 10 {
                lemma_pow10_monotonic(10, (width_of(whole as nat) - 1) as nat);
            }
        }
        let whole_len: usize = if whole == 0 && frac != 0 {
            0
        } else {
            width_of_exec(whole) as usize
        };
        assert(whole_len <= 10);
        let frac_len: usize = if frac == 0 {
            0
        } else {
            1 + fraction_width_exec(frac, SCALE) as usize
        };
        sign + whole_len + frac_len
    }

    /// Appends the text of the number to `out`.
    pub fn write_text(&self, out: &mut Vec<char>)
        requires
            self.wf(),
        ensures
            final(out)@ == old(out)@ + number_text(self@),
    {
        let a: u64 = if self.units < 0 {
            (-self.units) as u64
        } else {
            self.units as u64
        };
        let whole: u64 = a / (UNIT as u64);
        let frac: u64 = a % (UNIT as u64);
        let ghost start = out@;
        if self.units < 0 {
            out.push('-');
        }
        let ghost signed = out@;
        assert(signed =~= start + if self@ < 0 {
            seq!['-']
        } else {
            Seq::empty()
        });
        if !(whole == 0 && frac != 0) {
            let width = width_of_exec(whole);
            proof {
                lemma_pow10_values();
                lemma_width_of(whole as nat);
                if width > 10 {
                    lemma_pow10_monotonic(10, (width - 1) as nat);
                }
            }
            write_digits(whole, width, width, out);
            assert(padded_text(whole as nat, width as nat).take(width as int) =~= padded_text(
                whole as nat,
                width as nat,
            ));
        }
        assert(out@ =~= signed + whole_text(a as nat));
        let ghost wholed = out@;
        if frac != 0 {
            out.push('.');
            let keep = fraction_width_exec(frac, SCALE);
            write_digits(frac, SCALE, keep, out);
        }
        assert(out@ =~= wholed + fraction_text(a as nat));
        assert(out@ =~= start + number_text(self@));
    }
}

/// Number of digits of the fraction `f` of `width` places up to its last
/// digit that is not zero.
pub fn fraction_width_exec(f: u64, width: u32) -> (r: u32)
    ensures
        r == fraction_width(f as nat, width as nat),
        r <= width,
{
    let mut rest: u64 = f;
    let mut w: u32 = width;
    while w > 0 && rest != 0 && rest % 10 == 0
        invariant
            w <= width,
            fraction_width(f as nat, width as nat) == fraction_width(rest as nat, w as nat),
        decreases w,
    {
        rest = rest / 10;
        w = w - 1;
    }
    proof {
        lemma_fraction_width(rest as nat, w as nat);
    }
    if rest == 0 {
        0
    } else {
        w
    }
}

} // verus!
