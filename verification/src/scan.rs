//! Reading decimal numbers from text.
//!
//! A number is an optional sign, digits with an optional point among or
//! before them, and an optional exponent. Its value is kept to [`SCALE`]
//! decimal places; digits after that are dropped.

use vstd::prelude::*;
use crate::number::digit_value;
use crate::number::lemma_pow10_monotonic;
use crate::number::lemma_pow10_positive;
use crate::number::lemma_pow10_values;
use crate::number::pow10;
use crate::number::pow10_exec;
use crate::number::Number;
use crate::number::MAX_UNITS;
use crate::number::SCALE;

verus! {

/// Most digits an exponent may have.
pub const EXPONENT_DIGITS: usize = 9;

/// Whether `c` is a decimal digit.
pub open spec fn is_digit(c: char) -> bool {
    digit_value(c) is Some
}

/// The index after the digits that start at `i`.
pub open spec fn digits_end(s: Seq<char>, i: int) -> int
    decreases s.len() - i,
{
    if 0 <= i < s.len() && is_digit(s[i]) {
        digits_end(s, i + 1)
    } else {
        i
    }
}

/// The value of the digits of `s` from `from` up to `to`.
pub open spec fn digits_value(s: Seq<char>, from: int, to: int) -> nat
    decreases to - from,
{
    if to <= from {
        0
    } else {
        digits_value(s, from, to - 1) * 10 + digit_value(s[to - 1]).unwrap() as nat
    }
}

/// Where the parts of a number stand in a text.
pub struct NumberToken {
    pub negative: bool,
    /// Where the digits before the point start and end.
    pub whole: (int, int),
    /// Where the digits after the point start and end.
    pub fraction: (int, int),
    pub exponent_negative: bool,
    /// Where the digits of the exponent start and end; empty without one.
    pub exponent: (int, int),
    /// The index after the number.
    pub end: int,
}

/// Whether `c` is a sign.
pub open spec fn is_sign(c: char) -> bool {
    c == '-' || c == '+'
}

/// Where the digits of an exponent stand that starts at `at`, and whether
/// it is negative: a letter `e`, a sign or none, and at least one digit.
/// `None` where no exponent starts there.
pub open spec fn scan_exponent(s: Seq<char>, at: int) -> Option<(bool, int, int)> {
    if 0 <= at < s.len() && (s[at] == 'e' || s[at] == 'E') {
        let signed = at + 1 < s.len() && is_sign(s[at + 1]);
        let from = if signed {
            at + 2
        } else {
            at + 1
        };
        let to = digits_end(s, from);
        if to > from {
            Some((signed && s[at + 1] == '-', from, to))
        } else {
            None
        }
    } else {
        None
    }
}

/// Where the digits before and after the point stand in a number that
/// starts at `from`, after its sign.
pub open spec fn scan_digits_parts(s: Seq<char>, from: int) -> ((int, int), (int, int)) {
    let w1 = digits_end(s, from);
    if 0 <= w1 < s.len() && s[w1] == '.' {
        ((from, w1), (w1 + 1, digits_end(s, w1 + 1)))
    } else {
        ((from, w1), (w1, w1))
    }
}

/// The number that starts at `i`, if one does: at least one digit, and an
/// exponent only where digits follow its letter and sign, at most
/// [`EXPONENT_DIGITS`] of them.
pub open spec fn scan_token(s: Seq<char>, i: int) -> Option<NumberToken> {
    let signed = 0 <= i < s.len() && is_sign(s[i]);
    let parts = scan_digits_parts(
        s,
        if signed {
            i + 1
        } else {
            i
        },
    );
    let whole = parts.0;
    let fraction = parts.1;
    if i < 0 || (whole.1 - whole.0) + (fraction.1 - fraction.0) == 0 {
        None
    } else {
        match scan_exponent(s, fraction.1) {
            None => Some(
                NumberToken {
                    negative: signed && s[i] == '-',
                    whole,
                    fraction,
                    exponent_negative: false,
                    exponent: (fraction.1, fraction.1),
                    end: fraction.1,
                },
            ),
            Some((negative, from, to)) => if to - from > EXPONENT_DIGITS {
                None
            } else {
                Some(
                    NumberToken {
                        negative: signed && s[i] == '-',
                        whole,
                        fraction,
                        exponent_negative: negative,
                        exponent: (from, to),
                        end: to,
                    },
                )
            },
        }
    }
}

/// The value of the first `keep` digits of a number, the point left out.
pub open spec fn mantissa(s: Seq<char>, t: NumberToken, keep: int) -> nat {
    let whole_len = t.whole.1 - t.whole.0;
    if keep <= whole_len {
        digits_value(s, t.whole.0, t.whole.0 + keep)
    } else {
        (digits_value(s, t.whole.0, t.whole.1) * pow10((keep - whole_len) as nat)
            + digits_value(s, t.fraction.0, t.fraction.0 + keep - whole_len)) as nat
    }
}

/// By how many places the mantissa of all digits is to be shifted to give
/// units.
pub open spec fn token_shift(s: Seq<char>, t: NumberToken) -> int {
    let power = digits_value(s, t.exponent.0, t.exponent.1) as int;
    SCALE - (t.fraction.1 - t.fraction.0) + if t.exponent_negative {
        -power
    } else {
        power
    }
}

/// The magnitude of a number in units, digits after the last place
/// dropped.
pub open spec fn token_magnitude(s: Seq<char>, t: NumberToken) -> nat {
    let digits = (t.whole.1 - t.whole.0) + (t.fraction.1 - t.fraction.0);
    let shift = token_shift(s, t);
    if shift >= 0 {
        (mantissa(s, t, digits) * pow10(shift as nat)) as nat
    } else if digits + shift <= 0 {
        0
    } else {
        mantissa(s, t, digits + shift)
    }
}

/// The number that starts at `i` in units, and the index after it; `None`
/// where no number starts or its magnitude is above [`MAX_UNITS`].
pub open spec fn scan_number(s: Seq<char>, i: int) -> Option<(int, int)> {
    match scan_token(s, i) {
        None => None,
        Some(t) => {
            let magnitude = token_magnitude(s, t) as int;
            if magnitude > MAX_UNITS {
                None
            } else {
                Some(
                    (
                        if t.negative {
                            -magnitude
                        } else {
                            magnitude
                        },
                        t.end,
                    ),
                )
            }
        },
    }
}

/// The digits that start at an index end within the text, at what is no
/// digit.
pub proof fn lemma_digits_end(s: Seq<char>, i: int)
    requires
        0 <= i <= s.len(),
    ensures
        i <= digits_end(s, i) <= s.len(),
        forall|k: int| i <= k < digits_end(s, i) ==> is_digit(#[trigger] s[k]),
        digits_end(s, i) < s.len() ==> !is_digit(s[digits_end(s, i)]),
    decreases s.len() - i,
{
    if i < s.len() && is_digit(s[i]) {
        lemma_digits_end(s, i + 1);
    }
}

/// More digits never give less.
pub proof fn lemma_digits_value_grows(s: Seq<char>, from: int, mid: int, to: int)
    requires
        from <= mid <= to,
        forall|k: int| from <= k < to ==> is_digit(#[trigger] s[k]),
    ensures
        digits_value(s, from, mid) <= digits_value(s, from, to),
    decreases to - mid,
{
    if mid < to {
        lemma_digits_value_grows(s, from, mid, to - 1);
        assert(is_digit(s[to - 1]));
    }
}

/// The digit that `c` writes.
pub fn digit_of(c: char) -> (r: Option<u8>)
    ensures
        match r {
            Some(d) => digit_value(c) == Some(d as int) && d < 10,
            None => digit_value(c) is None,
        },
{
    match c {
        '0' => Some(0),
        '1' => Some(1),
        '2' => Some(2),
        '3' => Some(3),
        '4' => Some(4),
        '5' => Some(5),
        '6' => Some(6),
        '7' => Some(7),
        '8' => Some(8),
        '9' => Some(9),
        _ => None,
    }
}

/// The index after the digits that start at `i`.
pub fn scan_digits(s: &Vec<char>, i: usize) -> (r: usize)
    requires
        i <= s@.len(),
    ensures
        r == digits_end(s@, i as int),
        i <= r <= s@.len(),
{
    let mut j: usize = i;
    while j < s.len() && digit_of(s[j]).is_some()
        invariant
            i <= j <= s@.len(),
            digits_end(s@, i as int) == digits_end(s@, j as int),
        decreases s@.len() - j,
    {
        j = j + 1;
    }
    j
}

/// `acc` continued by the digits of `s` from `from` up to `to`, unless
/// that is above [`MAX_UNITS`].
#[verifier::rlimit(40)]
fn accumulate(s: &Vec<char>, from: usize, to: usize, acc: u64) -> (r: Option<u64>)
    requires
        from <= to <= s@.len(),
        acc <= MAX_UNITS,
        forall|k: int| from <= k < to ==> is_digit(#[trigger] s@[k]),
    ensures
        match r {
            Some(v) => v == acc * pow10((to - from) as nat) + digits_value(
                s@,
                from as int,
                to as int,
            ) && v <= MAX_UNITS,
            None => acc * pow10((to - from) as nat) + digits_value(s@, from as int, to as int)
                > MAX_UNITS,
        },
{
    let mut v: u64 = acc;
    let mut j: usize = from;
    proof {
        lemma_pow10_values();
    }
    while j < to
        invariant
            from <= j <= to <= s@.len(),
            forall|k: int| from <= k < to ==> is_digit(#[trigger] s@[k]),
            v == acc * pow10((j - from) as nat) + digits_value(s@, from as int, j as int),
            v <= MAX_UNITS,
        decreases to - j,
    {
        let d = digit_of(s[j]).unwrap();
        let ghost before = v as int;
        assert(is_digit(s@[j as int]));
        proof {
            let p = pow10((j - from) as nat);
            assert(pow10((j + 1 - from) as nat) == 10 * p);
            assert(acc * (10 * p) == (acc * p) * 10) by (nonlinear_arith);
        }
        let next: u64 = v * 10 + d as u64;
        assert(next == acc * pow10((j + 1 - from) as nat) + digits_value(
            s@,
            from as int,
            j as int + 1,
        ));
        if next > MAX_UNITS as u64 {
            proof {
                // what follows only adds to it
                let rest = (to - (j + 1)) as nat;
                lemma_pow10_positive(rest);
                crate::number::lemma_pow10_add((j + 1 - from) as nat, rest);
                lemma_digits_value_grows(s@, from as int, j as int + 1, to as int);
                let a = acc as int;
                let head_power = pow10((j + 1 - from) as nat);
                let rest_power = pow10(rest);
                assert(pow10((to - from) as nat) == head_power * rest_power);
                lemma_pow10_positive((j + 1 - from) as nat);
                assert(a * (head_power * rest_power) >= a * head_power) by (nonlinear_arith)
                    requires
                        a >= 0,
                        head_power >= 1,
                        rest_power >= 1,
                ;
                lemma_accumulate_grows(s@, from as int, j as int + 1, to as int, a);
            }
            return None;
        }
        v = next;
        j = j + 1;
    }
    Some(v)
}

/// Continuing a number by further digits never gives less.
proof fn lemma_accumulate_grows(s: Seq<char>, from: int, mid: int, to: int, acc: int)
    requires
        from <= mid <= to,
        acc >= 0,
        forall|k: int| from <= k < to ==> is_digit(#[trigger] s[k]),
    ensures
        acc * pow10((mid - from) as nat) + digits_value(s, from, mid) <= acc * pow10(
            (to - from) as nat,
        ) + digits_value(s, from, to),
    decreases to - mid,
{
    if mid < to {
        lemma_accumulate_grows(s, from, mid, to - 1, acc);
        assert(is_digit(s[to - 1]));
        let p = pow10((to - 1 - from) as nat);
        lemma_pow10_positive((to - 1 - from) as nat);
        assert(pow10((to - from) as nat) == 10 * p);
        assert(acc * (10 * p) >= acc * p) by (nonlinear_arith)
            requires
                acc >= 0,
                p >= 1,
        ;
    }
}

/// The value of the first `keep` digits of the number whose digits before
/// the point stand from `w0` up to `w1` and whose digits after it start at
/// `f0`, unless it is above [`MAX_UNITS`].
#[verifier::rlimit(40)]
fn read_mantissa(s: &Vec<char>, w0: usize, w1: usize, f0: usize, f1: usize, keep: usize) -> (r:
    Option<u64>)
    requires
        w0 <= w1 <= s@.len(),
        f0 <= f1 <= s@.len(),
        keep <= (w1 - w0) + (f1 - f0),
        forall|k: int| w0 <= k < w1 ==> is_digit(#[trigger] s@[k]),
        forall|k: int| f0 <= k < f1 ==> is_digit(#[trigger] s@[k]),
    ensures
        ({
            let t = NumberToken {
                negative: false,
                whole: (w0 as int, w1 as int),
                fraction: (f0 as int, f1 as int),
                exponent_negative: false,
                exponent: (0, 0),
                end: 0,
            };
            match r {
                Some(v) => v == mantissa(s@, t, keep as int) && v <= MAX_UNITS,
                None => mantissa(s@, t, keep as int) > MAX_UNITS,
            }
        }),
{
    let whole_len = w1 - w0;
    if keep <= whole_len {
        let r = accumulate(s, w0, w0 + keep, 0);
        assert(0 * pow10(keep as nat) == 0) by (nonlinear_arith);
        r
    } else {
        let rest = keep - whole_len;
        proof {
            lemma_pow10_positive(rest as nat);
            assert(0 * pow10(whole_len as nat) == 0) by (nonlinear_arith);
        }
        match accumulate(s, w0, w1, 0) {
            None => {
                proof {
                    let d = digits_value(s@, w0 as int, w1 as int) as int;
                    let p = pow10(rest as nat);
                    assert(d * p >= d) by (nonlinear_arith)
                        requires
                            d >= 0,
                            p >= 1,
                    ;
                }
                None
            },
            Some(whole) => accumulate(s, f0, f0 + rest, whole),
        }
    }
}

/// Where the parts of a number were found, and its exponent.
pub struct Scanned {
    pub negative: bool,
    pub whole: (usize, usize),
    pub fraction: (usize, usize),
    pub power_negative: bool,
    pub power: u64,
    pub end: usize,
}

impl Scanned {
    /// What was found is the number that starts at `i` of `s`.
    pub open spec fn matches(self, s: Seq<char>, i: int) -> bool {
        match scan_token(s, i) {
            None => false,
            Some(t) => {
                &&& t.negative == self.negative
                &&& t.whole == (self.whole.0 as int, self.whole.1 as int)
                &&& t.fraction == (self.fraction.0 as int, self.fraction.1 as int)
                &&& t.exponent_negative == self.power_negative
                &&& digits_value(s, t.exponent.0, t.exponent.1) == self.power
                &&& t.end == self.end
                &&& self.whole.0 <= self.whole.1 <= s.len()
                &&& self.fraction.0 <= self.fraction.1 <= s.len()
                &&& i < self.end <= s.len()
                &&& self.power < 1_000_000_000
                &&& forall|k: int| self.whole.0 <= k < self.whole.1 ==> is_digit(#[trigger] s[k])
                &&& forall|k: int|
                    self.fraction.0 <= k < self.fraction.1 ==> is_digit(#[trigger] s[k])
            },
        }
    }
}

/// Finds the digits before and after the point of a number that starts
/// at `from`, after its sign.
fn read_digits_parts(s: &Vec<char>, from: usize) -> (r: ((usize, usize), (usize, usize)))
    requires
        from <= s@.len(),
    ensures
        scan_digits_parts(s@, from as int) == (
            (r.0.0 as int, r.0.1 as int),
            (r.1.0 as int, r.1.1 as int),
        ),
        from == r.0.0 <= r.0.1 <= s@.len(),
        r.0.1 <= r.1.0 <= r.1.1 <= s@.len(),
        forall|k: int| r.0.0 <= k < r.0.1 ==> is_digit(#[trigger] s@[k]),
        forall|k: int| r.1.0 <= k < r.1.1 ==> is_digit(#[trigger] s@[k]),
{
    let w1 = scan_digits(s, from);
    proof {
        lemma_digits_end(s@, from as int);
    }
    if w1 < s.len() && s[w1] == '.' {
        let f1 = scan_digits(s, w1 + 1);
        proof {
            lemma_digits_end(s@, w1 as int + 1);
        }
        ((from, w1), (w1 + 1, f1))
    } else {
        ((from, w1), (w1, w1))
    }
}

/// Finds the exponent that starts at `at`: whether it is negative, and
/// where its digits stand.
fn read_exponent(s: &Vec<char>, at: usize) -> (r: Option<(bool, usize, usize)>)
    requires
        at <= s@.len(),
    ensures
        match r {
            Some((negative, from, to)) => scan_exponent(s@, at as int) == Some(
                (negative, from as int, to as int),
            ) && at < from < to <= s@.len() && forall|k: int|
                from <= k < to ==> is_digit(#[trigger] s@[k]),
            None => scan_exponent(s@, at as int) is None,
        },
{
    let len = s.len();
    if !(at < len && (s[at] == 'e' || s[at] == 'E')) {
        return None;
    }
    let signed = at + 1 < len && (s[at + 1] == '-' || s[at + 1] == '+');
    let from: usize = if signed {
        at + 2
    } else {
        at + 1
    };
    let to = scan_digits(s, from);
    proof {
        lemma_digits_end(s@, from as int);
    }
    if to > from {
        Some((signed && s[at + 1] == '-', from, to))
    } else {
        None
    }
}

/// Finds the parts of the number that starts at `i`.
#[verifier::rlimit(40)]
pub fn read_token(s: &Vec<char>, i: usize) -> (r: Option<Scanned>)
    requires
        i <= s@.len(),
    ensures
        match r {
            Some(found) => found.matches(s@, i as int),
            None => scan_token(s@, i as int) is None,
        },
{
    let len = s.len();
    let signed = i < len && (s[i] == '-' || s[i] == '+');
    let from: usize = if signed {
        i + 1
    } else {
        i
    };
    let (whole, fraction) = read_digits_parts(s, from);
    if (whole.1 - whole.0) + (fraction.1 - fraction.0) == 0 {
        return None;
    }
    let negative = signed && s[i] == '-';
    match read_exponent(s, fraction.1) {
        None => {
            assert(digits_value(s@, fraction.1 as int, fraction.1 as int) == 0);
            Some(
                Scanned {
                    negative,
                    whole,
                    fraction,
                    power_negative: false,
                    power: 0,
                    end: fraction.1,
                },
            )
        },
        Some((power_negative, e0, e1)) => {
            if e1 - e0 > EXPONENT_DIGITS {
                return None;
            }
            proof {
                lemma_pow10_values();
                assert(0 * pow10((e1 - e0) as nat) == 0) by (nonlinear_arith);
                lemma_digits_below(s@, e0 as int, e1 as int);
                lemma_pow10_monotonic((e1 - e0) as nat, 9);
            }
            let power = accumulate(s, e0, e1, 0).unwrap();
            Some(Scanned { negative, whole, fraction, power_negative, power, end: e1 })
        },
    }
}

/// The magnitude in units of the number that was found, unless it is above
/// [`MAX_UNITS`].
#[verifier::rlimit(40)]
fn read_magnitude(s: &Vec<char>, found: &Scanned, Ghost(i): Ghost<int>) -> (r: Option<u64>)
    requires
        found.matches(s@, i),
    ensures
        match r {
            Some(v) => v == token_magnitude(s@, scan_token(s@, i).unwrap()) && v <= MAX_UNITS,
            None => token_magnitude(s@, scan_token(s@, i).unwrap()) > MAX_UNITS,
        },
{
    let ghost t = scan_token(s@, i).unwrap();
    let (w0, w1) = found.whole;
    let (f0, f1) = found.fraction;
    let digits: usize = (w1 - w0) + (f1 - f0);
    let shift: i128 = SCALE as i128 - (f1 - f0) as i128 + if found.power_negative {
        -(found.power as i128)
    } else {
        found.power as i128
    };
    assert(shift == token_shift(s@, t));
    let ghost probe = NumberToken {
        negative: false,
        whole: (w0 as int, w1 as int),
        fraction: (f0 as int, f1 as int),
        exponent_negative: false,
        exponent: (0, 0),
        end: 0,
    };
    let keep: usize = if shift >= 0 {
        digits
    } else if digits as i128 + shift <= 0 {
        0
    } else {
        (digits as i128 + shift) as usize
    };
    assert(mantissa(s@, probe, keep as int) == mantissa(s@, t, keep as int));
    proof {
        lemma_pow10_values();
    }
    let kept = match read_mantissa(s, w0, w1, f0, f1, keep) {
        None => {
            proof {
                if shift >= 0 {
                    let m = mantissa(s@, t, digits as int) as int;
                    let p = pow10(shift as nat);
                    lemma_pow10_positive(shift as nat);
                    assert(m * p >= m) by (nonlinear_arith)
                        requires
                            m >= 0,
                            p >= 1,
                    ;
                }
            }
            return None;
        },
        Some(v) => v,
    };
    if shift <= 0 || kept == 0 {
        proof {
            if shift >= 0 {
                assert(kept * pow10(shift as nat) == kept) by (nonlinear_arith)
                    requires
                        shift == 0 && pow10(0) == 1 || kept == 0,
                ;
            } else if digits as i128 + shift <= 0 {
                assert(mantissa(s@, t, 0) == 0);
            }
        }
        Some(kept)
    } else if shift > 18 {
        proof {
            lemma_pow10_monotonic(19, shift as nat);
            assert(pow10(19) == 10 * pow10(18));
            let p = pow10(shift as nat);
            assert(kept * p >= p) by (nonlinear_arith)
                requires
                    kept >= 1,
                    p >= 0,
            ;
        }
        None
    } else {
        let factor = pow10_exec(shift as u32) as u128;
        assert(kept as u128 * factor <= 1_000_000_000_000_000_000 * 1_000_000_000_000_000_000)
            by (nonlinear_arith)
            requires
                kept <= 1_000_000_000_000_000_000,
                factor <= 1_000_000_000_000_000_000,
        ;
        let product: u128 = kept as u128 * factor;
        if product > MAX_UNITS as u128 {
            None
        } else {
            Some(product as u64)
        }
    }
}

/// The number that starts at `i`, and the index after it.
pub fn read_number(s: &Vec<char>, i: usize) -> (r: Option<(Number, usize)>)
    requires
        i <= s@.len(),
    ensures
        match r {
            Some((number, end)) => scan_number(s@, i as int) == Some((number@, end as int))
                && number.wf() && i < end <= s@.len(),
            None => scan_number(s@, i as int) is None,
        },
{
    let found = match read_token(s, i) {
        None => {
            return None;
        },
        Some(found) => found,
    };
    let magnitude = match read_magnitude(s, &found, Ghost(i as int)) {
        None => {
            return None;
        },
        Some(v) => v,
    };
    let units: i64 = if found.negative {
        -(magnitude as i64)
    } else {
        magnitude as i64
    };
    Some((Number { units }, found.end))
}

/// Digits of a given count stay below the power of ten of that count.
pub proof fn lemma_digits_below(s: Seq<char>, from: int, to: int)
    requires
        from <= to,
        forall|k: int| from <= k < to ==> is_digit(#[trigger] s[k]),
    ensures
        digits_value(s, from, to) < pow10((to - from) as nat),
    decreases to - from,
{
    if from < to {
        lemma_digits_below(s, from, to - 1);
        assert(is_digit(s[to - 1]));
    }
}

/// A number that is read takes at least one character and is in range.
pub proof fn lemma_scan_number(s: Seq<char>, i: int)
    requires
        0 <= i <= s.len(),
    ensures
        match scan_number(s, i) {
            Some((value, end)) => i < end <= s.len() && -MAX_UNITS <= value <= MAX_UNITS,
            None => true,
        },
{
    let signed = 0 <= i < s.len() && is_sign(s[i]);
    let from = if signed {
        i + 1
    } else {
        i
    };
    lemma_digits_end(s, from);
    let w1 = digits_end(s, from);
    if 0 <= w1 < s.len() && s[w1] == '.' {
        lemma_digits_end(s, w1 + 1);
    }
    let f1 = scan_digits_parts(s, from).1.1;
    if 0 <= f1 < s.len() && (s[f1] == 'e' || s[f1] == 'E') {
        let exponent_signed = f1 + 1 < s.len() && is_sign(s[f1 + 1]);
        let e0 = if exponent_signed {
            f1 + 2
        } else {
            f1 + 1
        };
        lemma_digits_end(s, e0);
    }
}

/// The number that the whole of `s` writes, in units.
pub open spec fn whole_number(s: Seq<char>) -> Option<int> {
    match scan_number(s, 0) {
        Some((value, end)) => if end == s.len() {
            Some(value)
        } else {
            None
        },
        None => None,
    }
}

impl Number {
    /// The number that the whole of `s` writes.
    pub fn parse_chars(s: &Vec<char>) -> (r: Option<Number>)
        ensures
            match r {
                Some(number) => whole_number(s@) == Some(number@) && number.wf(),
                None => whole_number(s@) is None,
            },
    {
        match read_number(s, 0) {
            Some((number, end)) => if end == s.len() {
                Some(number)
            } else {
                None
            },
            None => None,
        }
    }

    /// The number that the whole of `text` writes.
    pub fn parse(text: &str) -> (r: Option<Number>)
        ensures
            match r {
                Some(number) => whole_number(text@) == Some(number@) && number.wf(),
                None => whole_number(text@) is None,
            },
    {
        let s = crate::text::chars_of(text);
        Number::parse_chars(&s)
    }
}

} // verus!
