//! What is written reads back: the text of a path is read as that path.

use vstd::prelude::*;
use vstd::arithmetic::div_mod::lemma_div_denominator;
use vstd::arithmetic::div_mod::lemma_fundamental_div_mod;
use vstd::arithmetic::div_mod::lemma_fundamental_div_mod_converse;
use vstd::arithmetic::div_mod::lemma_mod_bound;
use crate::number::abs;
use crate::number::digit_char;
use crate::number::digit_value;
use crate::number::fraction_text;
use crate::number::fraction_width;
use crate::number::lemma_fraction_width;
use crate::number::lemma_pow10_add;
use crate::number::lemma_pow10_positive;
use crate::number::lemma_pow10_values;
use crate::number::lemma_width_of;
use crate::number::number_text;
use crate::number::padded_text;
use crate::number::pow10;
use crate::number::whole_text;
use crate::number::width_of;
use crate::number::MAX_UNITS;
use crate::number::SCALE;
use crate::number::UNIT;
use crate::scan::digits_end;
use crate::scan::digits_value;
use crate::scan::is_digit;
use crate::scan::is_sign;
use crate::scan::mantissa;
use crate::scan::scan_digits_parts;
use crate::scan::scan_exponent;
use crate::scan::scan_number;
use crate::scan::scan_token;
use crate::scan::token_magnitude;
use crate::scan::token_shift;
use crate::command::CommandView;
use crate::command::ID;
use crate::parser::is_flag;
use crate::parser::is_number_start;
use crate::parser::is_separator;
use crate::parser::parse_arg;
use crate::parser::parse_args;
use crate::parser::skip_separators;
use crate::parser::PathParseError;
use crate::parser::command_head;
use crate::parser::lemma_parse_args;
use crate::parser::lemma_skip_separators;
use crate::parser::parse_commands;
use crate::parser::spec_parse;
use crate::serialize::args_text;
use crate::serialize::command_text;
use crate::serialize::path_text;
use crate::serialize::prefix_text;
use crate::serialize::written_bare;
use crate::serialize::lemma_args_text_prefix;
use crate::serialize::needs_space;
use crate::serialize::separator;

verus! {

/// Whether `text` stands in `s` from `at` on.
#[verifier::opaque]
pub open spec fn holds(s: Seq<char>, at: int, text: Seq<char>) -> bool {
    &&& 0 <= at
    &&& at + text.len() <= s.len()
    &&& forall|i: int| 0 <= i < text.len() ==> #[trigger] s[at + i] == text[i]
}

/// Whether a number can end before index `at` of `s`: nothing follows, or
/// what follows is no digit, no letter of an exponent, and no point
/// unless the number has one already.
pub open spec fn ends_number(s: Seq<char>, at: int, pointed: bool) -> bool {
    at >= s.len() || (!is_digit(s[at]) && s[at] != 'e' && s[at] != 'E' && (s[at] != '.'
        || pointed))
}

/// A digit is read as its value.
pub proof fn lemma_digit(d: int)
    requires
        0 <= d <= 9,
    ensures
        digit_value(digit_char(d)) == Some(d),
        is_digit(digit_char(d)),
        !is_sign(digit_char(d)),
        digit_char(d) != '.',
        digit_char(d) != ' ',
{
}

/// The digits of a number in a given width, standing in a text, are
/// digits and have the value of the number below the power of ten of the
/// width.
#[verifier::rlimit(40)]
pub proof fn lemma_padded_value(s: Seq<char>, at: int, n: nat, width: nat)
    requires
        holds(s, at, padded_text(n, width)),
    ensures
        forall|k: int| at <= k < at + width ==> is_digit(#[trigger] s[k]),
        digits_value(s, at, at + width) == n % (pow10(width) as nat),
    decreases width,
{
    reveal(holds);
    lemma_pow10_positive(width);
    if width == 0 {
        assert(n % 1 == 0);
    } else {
        let w = (width - 1) as nat;
        lemma_pow10_positive(w);
        let p = pow10(w);
        assert(pow10(width) == 10 * p);
        // the digits but the last are those of a tenth of the number
        assert(holds(s, at, padded_text(n / 10, w))) by {
            assert forall|i: int| 0 <= i < w implies #[trigger] s[at + i] == padded_text(
                n / 10,
                w,
            )[i] by {
                assert(s[at + i] == padded_text(n, width)[i]);
                let e = (w - 1 - i) as nat;
                lemma_pow10_positive(e);
                assert(pow10((width - 1 - i) as nat) == 10 * pow10(e));
                lemma_div_denominator(n as int, 10, pow10(e));
            }
        }
        lemma_padded_value(s, at, n / 10, w);
        let last = s[at + w];
        assert(last == padded_text(n, width)[w as int]);
        assert(pow10(0) == 1);
        assert((width - 1 - w) as nat == 0);
        let one = pow10(0) as nat;
        assert(n / one == n) by (nonlinear_arith)
            requires
                one == 1,
        ;
        let d = (n as int) % 10;
        assert(padded_text(n, width)[w as int] == digit_char(d));
        assert(0 <= d <= 9);
        lemma_digit(d);
        assert forall|k: int| at <= k < at + width implies is_digit(#[trigger] s[k]) by {
            if k == at + w {
                assert(s[k] == digit_char(d));
            }
        }
        assert(digits_value(s, at, at + width) == digits_value(s, at, at + w) * 10 + d);
        lemma_mod_step(n as int, p);
    }
}

/// The value below a power of ten, from the value of a tenth below the
/// power before and the last digit.
proof fn lemma_mod_step(n: int, p: int)
    requires
        n >= 0,
        p >= 1,
    ensures
        ((n / 10) % p) * 10 + n % 10 == n % (10 * p),
{
    lemma_fundamental_div_mod(n, 10);
    lemma_fundamental_div_mod(n / 10, p);
    lemma_mod_bound(n, 10);
    lemma_mod_bound(n / 10, p);
    let q = (n / 10) / p;
    let r = (n / 10) % p;
    let d = n % 10;
    assert(n == (10 * p) * q + (r * 10 + d)) by (nonlinear_arith)
        requires
            n == 10 * (n / 10) + d,
            n / 10 == p * q + r,
    ;
    assert(0 <= r * 10 + d < 10 * p) by (nonlinear_arith)
        requires
            0 <= r < p,
            0 <= d < 10,
    ;
    lemma_fundamental_div_mod_converse(n, 10 * p, q, r * 10 + d);
}

/// Digits that stand in a text up to a character that is none are read to
/// their end.
pub proof fn lemma_digits_run(s: Seq<char>, at: int, width: nat)
    requires
        0 <= at,
        at + width <= s.len(),
        forall|k: int| at <= k < at + width ==> is_digit(#[trigger] s[k]),
        at + width == s.len() || !is_digit(s[at + width]),
    ensures
        digits_end(s, at) == at + width,
    decreases width,
{
    if width > 0 {
        assert(is_digit(s[at]));
        lemma_digits_run(s, at + 1, (width - 1) as nat);
    }
}

/// A part of a text that stands in another stands there piece by piece.
pub proof fn lemma_holds_split(s: Seq<char>, at: int, a: Seq<char>, b: Seq<char>)
    requires
        holds(s, at, a + b),
    ensures
        holds(s, at, a),
        holds(s, at + a.len(), b),
{
    reveal(holds);
    assert forall|i: int| 0 <= i < a.len() implies #[trigger] s[at + i] == a[i] by {
        assert((a + b)[i] == a[i]);
    }
    assert forall|i: int| 0 <= i < b.len() implies #[trigger] s[at + a.len() + i] == b[i] by {
        assert(s[at + (a.len() + i)] == (a + b)[a.len() + i]);
    }
}

/// The fraction of a number as it is written: its digits up to the last
/// that is not zero are those of the fraction without its zeros at the
/// end.
pub proof fn lemma_fraction_digits(frac: nat)
    requires
        0 < frac < UNIT,
    ensures
        ({
            let fw = fraction_width(frac, SCALE as nat);
            let cut = pow10((SCALE - fw) as nat) as nat;
            &&& 1 <= fw <= SCALE
            &&& frac % cut == 0
            &&& frac / cut < pow10(fw)
            &&& padded_text(frac, SCALE as nat).take(fw as int) == padded_text(frac / cut, fw)
        }),
{
    lemma_pow10_values();
    lemma_fraction_width(frac, SCALE as nat);
    lemma_fraction_cut(frac, SCALE as nat);
    let fw = fraction_width(frac, SCALE as nat);
    let cut = pow10((SCALE - fw) as nat) as nat;
    lemma_pow10_positive((SCALE - fw) as nat);
    lemma_pow10_add((SCALE - fw) as nat, fw);
    lemma_fundamental_div_mod(frac as int, cut as int);
    assert(frac / cut < pow10(fw)) by (nonlinear_arith)
        requires
            frac == cut * (frac / cut),
            frac < pow10((SCALE - fw) as nat) * pow10(fw),
            cut == pow10((SCALE - fw) as nat),
            cut > 0,
    ;
    assert(padded_text(frac, SCALE as nat).take(fw as int) =~= padded_text(frac / cut, fw)) by {
        assert forall|i: int| 0 <= i < fw implies padded_text(frac, SCALE as nat)[i]
            == padded_text(frac / cut, fw)[i] by {
            let e = (fw - 1 - i) as nat;
            lemma_pow10_positive(e);
            lemma_pow10_add((SCALE - fw) as nat, e);
            assert(((SCALE - fw) + e) as nat == (SCALE - 1 - i) as nat);
            lemma_div_denominator(frac as int, cut as int, pow10(e));
        }
    }
}

/// The zeros at the end of a fraction are as many as its width leaves
/// out.
proof fn lemma_fraction_cut(f: nat, width: nat)
    requires
        f > 0,
        f < pow10(width),
    ensures
        f % (pow10((width - fraction_width(f, width)) as nat) as nat) == 0,
        fraction_width(f, width) <= width,
    decreases width,
{
    lemma_pow10_values();
    lemma_fraction_width(f, width);
    if width > 0 && f % 10 == 0 {
        let g = f / 10;
        assert(pow10(width) == 10 * pow10((width - 1) as nat));
        lemma_fraction_cut(g, (width - 1) as nat);
        let k = ((width - 1) - fraction_width(g, (width - 1) as nat)) as nat;
        lemma_pow10_positive(k);
        let p = pow10(k);
        assert(pow10((k + 1) as nat) == 10 * p);
        lemma_fundamental_div_mod(g as int, p);
        lemma_fundamental_div_mod(f as int, 10);
        let q = g as int / p;
        assert(f == (10 * p) * q) by (nonlinear_arith)
            requires
                f == 10 * g,
                g == p * q,
        ;
        lemma_fundamental_div_mod_converse(f as int, 10 * p, q, 0);
    } else {
        assert(f % 1 == 0);
    }
}

/// Whether the text of the number of `v` units has a point.
pub open spec fn pointed(v: int) -> bool {
    abs(v) % (UNIT as int) != 0
}

/// Number of digits before the point in the text of a number of magnitude
/// `a` units.
pub open spec fn whole_len(a: nat) -> nat {
    whole_text(a).len()
}

/// Number of digits after the point in the text of a number of magnitude
/// `a` units.
pub open spec fn fraction_len(a: nat) -> nat {
    fraction_width(a % (UNIT as nat), SCALE as nat)
}

/// The value of the digits after the point in the text of a number of
/// magnitude `a` units.
pub open spec fn fraction_digits(a: nat) -> nat {
    (a % (UNIT as nat)) / (pow10((SCALE - fraction_len(a)) as nat) as nat)
}

/// The text of a number is its sign, its digits before the point, and its
/// point and digits after it.
pub proof fn lemma_number_text_parts(v: int)
    requires
        -MAX_UNITS <= v <= MAX_UNITS,
    ensures
        ({
            let a = abs(v) as nat;
            let sign: int = if v < 0 {
                1
            } else {
                0
            };
            let point: int = if pointed(v) {
                1
            } else {
                0
            };
            &&& number_text(v).len() == sign + whole_len(a) + point + if pointed(v) {
                fraction_len(a)
            } else {
                0
            }
            &&& number_text(v).len() >= 1
            &&& pointed(v) ==> 1 <= fraction_len(a) <= SCALE
            &&& whole_len(a) == 0 ==> pointed(v) && a / (UNIT as nat) == 0
            &&& whole_len(a) > 0 ==> whole_len(a) == width_of(a / (UNIT as nat))
        }),
{
    let a = abs(v) as nat;
    let frac = a % (UNIT as nat);
    lemma_width_of(a / (UNIT as nat));
    if frac != 0 {
        lemma_fraction_digits(frac);
    }
}

/// Where the digits of a number that stands in a text are found, and
/// their values.
#[verifier::rlimit(40)]
pub proof fn lemma_scan_parts(s: Seq<char>, at: int, v: int)
    requires
        -MAX_UNITS <= v <= MAX_UNITS,
        holds(s, at, number_text(v)),
        ends_number(s, at + number_text(v).len(), pointed(v)),
    ensures
        ({
            let a = abs(v) as nat;
            let w0 = at + if v < 0 {
                1int
            } else {
                0int
            };
            let w1 = w0 + whole_len(a);
            let f0 = if pointed(v) {
                w1 + 1
            } else {
                w1
            };
            let f1 = if pointed(v) {
                f0 + fraction_len(a)
            } else {
                w1
            };
            &&& (0 <= at < s.len() && is_sign(s[at])) == (v < 0)
            &&& v < 0 ==> s[at] == '-'
            &&& scan_digits_parts(s, w0) == ((w0, w1), (f0, f1))
            &&& f1 == at + number_text(v).len()
            &&& digits_value(s, w0, w1) == a / (UNIT as nat)
            &&& pointed(v) ==> digits_value(s, f0, f1) == fraction_digits(a)
        }),
{
    reveal(holds);
    let a = abs(v) as nat;
    let whole = a / (UNIT as nat);
    let frac = a % (UNIT as nat);
    let sign: Seq<char> = if v < 0 {
        seq!['-']
    } else {
        Seq::empty()
    };
    let w0 = at + sign.len();
    let wl = whole_len(a);
    let w1 = w0 + wl;
    lemma_number_text_parts(v);
    lemma_pow10_values();
    assert(number_text(v) == (sign + whole_text(a)) + fraction_text(a));
    lemma_holds_split(s, at, sign + whole_text(a), fraction_text(a));
    lemma_holds_split(s, at, sign, whole_text(a));
    // the digits before the point
    if wl > 0 {
        lemma_width_of(whole);
        lemma_padded_value(s, w0, whole, wl);
        assert(whole % (pow10(wl) as nat) == whole) by {
            vstd::arithmetic::div_mod::lemma_small_mod(whole, pow10(wl) as nat);
        }
    } else {
        assert(digits_value(s, w0, w0) == 0);
    }
    // the sign
    if v < 0 {
        assert(s[at + 0] == sign[0]);
    } else {
        if wl > 0 {
            assert(is_digit(s[w0]));
        } else {
            assert(s[w1 + 0] == fraction_text(a)[0]);
        }
    }
    if frac != 0 {
        lemma_fraction_digits(frac);
        let fw = fraction_len(a);
        let digits = padded_text(fraction_digits(a), fw);
        assert(fraction_text(a) == seq!['.'] + digits);
        lemma_holds_split(s, w1, seq!['.'], digits);
        assert(s[w1 + 0] == seq!['.'][0]);
        lemma_digits_run(s, w0, wl);
        lemma_padded_value(s, w1 + 1, fraction_digits(a), fw);
        vstd::arithmetic::div_mod::lemma_small_mod(fraction_digits(a), pow10(fw) as nat);
        lemma_digits_run(s, w1 + 1, fw);
    } else {
        assert(fraction_text(a).len() == 0);
        lemma_digits_run(s, w0, wl);
    }
}

/// A number that stands in a text, before what can end it, is read back.
#[verifier::rlimit(40)]
pub proof fn lemma_scan_text(s: Seq<char>, at: int, v: int)
    requires
        -MAX_UNITS <= v <= MAX_UNITS,
        holds(s, at, number_text(v)),
        ends_number(s, at + number_text(v).len(), pointed(v)),
    ensures
        scan_number(s, at) == Some((v, at + number_text(v).len())),
{
    let a = abs(v) as nat;
    let whole = a / (UNIT as nat);
    let frac = a % (UNIT as nat);
    lemma_number_text_parts(v);
    lemma_scan_parts(s, at, v);
    lemma_pow10_values();
    let w0 = at + if v < 0 {
        1int
    } else {
        0int
    };
    let wl = whole_len(a);
    let w1 = w0 + wl;
    let fw: nat = if pointed(v) {
        fraction_len(a)
    } else {
        0
    };
    let f0 = if pointed(v) {
        w1 + 1
    } else {
        w1
    };
    let f1 = f0 + fw;
    assert(scan_exponent(s, f1) is None);
    assert(digits_value(s, f1, f1) == 0);
    let t = scan_token(s, at).unwrap();
    assert(t.whole == (w0, w1));
    assert(t.fraction == (f0, f1));
    assert(t.end == f1);
    assert(t.negative == (v < 0));
    assert(token_shift(s, t) == SCALE - fw);
    lemma_fundamental_div_mod(a as int, UNIT as int);
    if pointed(v) {
        lemma_fraction_digits(frac);
        let cut = pow10((SCALE - fw) as nat);
        lemma_pow10_add(fw, (SCALE - fw) as nat);
        lemma_fundamental_div_mod(frac as int, cut);
        let fd = fraction_digits(a) as int;
        assert(mantissa(s, t, (wl + fw) as int) == whole * pow10(fw) + fd);
        assert((whole * pow10(fw) + fd) * cut == a) by (nonlinear_arith)
            requires
                pow10(fw) * cut == 1_000_000_000,
                frac == cut * fd,
                a == 1_000_000_000 * whole + frac,
        ;
    } else {
        assert(mantissa(s, t, wl as int) == whole);
        assert(frac == 0);
    }
    assert(token_magnitude(s, t) == a);
}

/// The text of the arguments from the `j`th on, each after what
/// separates it from the one before it.
pub open spec fn tail_text(args: Seq<int>, j: int, negative_extra_space: bool) -> Seq<char>
    decreases args.len() - j,
{
    if j < 0 || j >= args.len() {
        Seq::empty()
    } else {
        (if j > 0 {
            separator(args[j - 1], args[j], negative_extra_space)
        } else {
            Seq::empty()
        }) + number_text(args[j]) + tail_text(args, j + 1, negative_extra_space)
    }
}

/// The text of a list of arguments is the text of its first arguments and
/// then that of the others.
pub proof fn lemma_args_text_tail(args: Seq<int>, j: int, negative_extra_space: bool)
    requires
        0 <= j <= args.len(),
    ensures
        args_text(args, negative_extra_space) == args_text(args.take(j), negative_extra_space)
            + tail_text(args, j, negative_extra_space),
    decreases args.len() - j,
{
    if j == args.len() {
        assert(args.take(j) =~= args);
        assert(args_text(args, negative_extra_space) + Seq::<char>::empty() =~= args_text(
            args,
            negative_extra_space,
        ));
    } else {
        lemma_args_text_tail(args, j + 1, negative_extra_space);
        lemma_args_text_prefix(args, j + 1, negative_extra_space);
        let head = args_text(args.take(j), negative_extra_space);
        let rest = tail_text(args, j + 1, negative_extra_space);
        if j == 0 {
            assert(args.take(0).len() == 0);
            assert(head =~= Seq::<char>::empty());
            assert(number_text(args[0]) + rest =~= head + (Seq::<char>::empty() + number_text(
                args[0],
            ) + rest));
        } else {
            let sep = separator(args[j - 1], args[j], negative_extra_space);
            assert((head + sep + number_text(args[j])) + rest =~= head + (sep + number_text(
                args[j],
            ) + rest));
        }
    }
}

/// How the text of a number starts: with its sign, a digit or its point.
#[verifier::rlimit(40)]
pub proof fn lemma_number_head(v: int)
    requires
        -MAX_UNITS <= v <= MAX_UNITS,
    ensures
        number_text(v).len() >= 1,
        v < 0 ==> number_text(v)[0] == '-',
        0 < v < UNIT ==> number_text(v)[0] == '.',
        v == 0 || v >= UNIT ==> is_digit(number_text(v)[0]),
        is_number_start(number_text(v)[0]),
        !is_separator(number_text(v)[0]),
        ID::spec_from_letter(number_text(v)[0]) is None,
        number_text(0) == seq!['0'],
        number_text(UNIT as int) == seq!['1'],
{
    let a = abs(v) as nat;
    let whole = a / (UNIT as nat);
    let frac = a % (UNIT as nat);
    lemma_number_text_parts(v);
    lemma_pow10_values();
    lemma_width_of(whole);
    let sign: Seq<char> = if v < 0 {
        seq!['-']
    } else {
        Seq::empty()
    };
    assert(number_text(v) == (sign + whole_text(a)) + fraction_text(a));
    if v >= 0 {
        if whole_len(a) > 0 {
            let w = width_of(whole);
            let d = (whole / (pow10((w - 1) as nat) as nat)) as int % 10;
            assert(number_text(v)[0] == padded_text(whole, w)[0]);
            assert(number_text(v)[0] == digit_char(d));
            lemma_digit(d);
            assert(ID::spec_from_letter(digit_char(d)) is None);
        } else {
            lemma_fraction_digits(frac);
            assert(number_text(v)[0] == fraction_text(a)[0]);
            assert(fraction_text(a)[0] == '.');
        }
    } else {
        assert(number_text(v)[0] == sign[0]);
    }
    assert(number_text(0) =~= seq!['0']) by {
        assert(whole_text(0) =~= padded_text(0, 1));
        assert(padded_text(0, 1)[0] == digit_char(0));
        assert(fraction_text(0).len() == 0);
    }
    assert(number_text(UNIT as int) =~= seq!['1']) by {
        assert(abs(UNIT as int) as nat / (UNIT as nat) == 1);
        assert(abs(UNIT as int) as nat % (UNIT as nat) == 0);
        assert(whole_text(UNIT as nat) =~= padded_text(1, 1));
        let one = pow10(0) as nat;
        assert(1nat / one == 1) by (nonlinear_arith)
            requires
                one == 1,
        ;
        assert(padded_text(1, 1)[0] == digit_char(1));
        assert(fraction_text(UNIT as nat).len() == 0);
    }
}

/// Separators that stand before a character that is none are skipped.
pub proof fn lemma_skip_run(s: Seq<char>, at: int, n: nat)
    requires
        0 <= at,
        at + n <= s.len(),
        forall|k: int| at <= k < at + n ==> is_separator(#[trigger] s[k]),
        at + n == s.len() || !is_separator(s[at + n]),
    ensures
        skip_separators(s, at) == at + n,
    decreases n,
{
    if n > 0 {
        assert(is_separator(s[at]));
        lemma_skip_run(s, at + 1, (n - 1) as nat);
    }
}

/// A number has a point in its text exactly if its units are no whole
/// number of units.
pub proof fn lemma_pointed(v: int)
    ensures
        pointed(v) == (v % (UNIT as int) != 0),
{
    if v < 0 {
        lemma_fundamental_div_mod(v, UNIT as int);
        lemma_fundamental_div_mod(-v, UNIT as int);
        lemma_mod_bound(v, UNIT as int);
        lemma_mod_bound(-v, UNIT as int);
        if v % (UNIT as int) == 0 {
            lemma_fundamental_div_mod_converse(-v, UNIT as int, -(v / (UNIT as int)), 0);
        }
        if (-v) % (UNIT as int) == 0 {
            lemma_fundamental_div_mod_converse(v, UNIT as int, -((-v) / (UNIT as int)), 0);
        }
    }
}

/// Whether the flags of `c`, if it is an arc, are zero or one, and `c` is
/// well formed.
pub open spec fn canonical(c: CommandView) -> bool {
    &&& c.wf()
    &&& c.id == ID::ArcTo || c.id == ID::ArcBy ==> (c.args[3] == 0 || c.args[3] == UNIT) && (
    c.args[4] == 0 || c.args[4] == UNIT)
}

/// What can stand in `s` at `at` after a number of `v` units: what ends a
/// number, or what separates it from a number that follows.
pub proof fn lemma_separator_ends(s: Seq<char>, at: int, v: int, next: int, nes: bool)
    requires
        -MAX_UNITS <= next <= MAX_UNITS,
        holds(s, at, separator(v, next, nes) + number_text(next)),
    ensures
        ends_number(s, at, pointed(v)),
        skip_separators(s, at) == at + separator(v, next, nes).len(),
{
    reveal(holds);
    lemma_number_head(next);
    lemma_pointed(v);
    let sep = separator(v, next, nes);
    lemma_holds_split(s, at, sep, number_text(next));
    assert(s[at + sep.len() + 0] == number_text(next)[0]);
    if needs_space(v, next, nes) {
        assert(s[at + 0] == sep[0]);
        lemma_skip_run(s, at, 1);
    } else {
        lemma_skip_run(s, at, 0);
    }
}

/// One argument that stands in a text after what separates it, before
/// what can end it, is read back.
pub proof fn lemma_parse_one(s: Seq<char>, at: int, sep: Seq<char>, v: int, id: ID, j: int)
    requires
        -MAX_UNITS <= v <= MAX_UNITS,
        sep.len() == 0 || sep == seq![' '],
        holds(s, at, sep + number_text(v)),
        ends_number(s, at + sep.len() + number_text(v).len(), pointed(v)),
        is_flag(id, j) ==> v == 0 || v == UNIT,
    ensures
        skip_separators(s, at) == at + sep.len(),
        parse_arg(s, at + sep.len(), id, j) == Some(
            (v, at + sep.len() + number_text(v).len()),
        ),
{
    reveal(parse_arg);
    reveal(holds);
    let number = number_text(v);
    lemma_holds_split(s, at, sep, number);
    lemma_number_head(v);
    assert(s[at + sep.len() + 0] == number[0]);
    if sep.len() > 0 {
        assert(s[at + 0] == sep[0]);
        lemma_skip_run(s, at, 1);
    } else {
        lemma_skip_run(s, at, 0);
    }
    let from = at + sep.len();
    if is_flag(id, j) {
        assert(number.len() == 1);
        assert(s[from + 0] == number[0]);
    } else {
        lemma_scan_text(s, from, v);
    }
}

/// What stands after an argument that is not the last ends it.
pub proof fn lemma_next_ends(s: Seq<char>, at: int, args: Seq<int>, j: int, nes: bool)
    requires
        0 <= j,
        j + 1 < args.len(),
        -MAX_UNITS <= args[j + 1] <= MAX_UNITS,
        holds(s, at, tail_text(args, j + 1, nes)),
    ensures
        ends_number(s, at, pointed(args[j])),
{
    let v = args[j];
    let next = args[j + 1];
    let further = tail_text(args, j + 2, nes);
    assert(tail_text(args, j + 1, nes) == (separator(v, next, nes) + number_text(next)) + further);
    lemma_holds_split(s, at, separator(v, next, nes) + number_text(next), further);
    lemma_separator_ends(s, at, v, next, nes);
}

/// Reading arguments is reading one and then the others.
pub proof fn lemma_parse_args_step(
    s: Seq<char>,
    at: int,
    id: ID,
    j: int,
    v: int,
    after: int,
    rest: Seq<int>,
    end: int,
)
    requires
        0 <= j < id.spec_arity(),
        parse_arg(s, skip_separators(s, at), id, j) == Some((v, after)),
        parse_args(s, after, id, j + 1) == Ok::<(Seq<int>, int), PathParseError>((rest, end)),
    ensures
        parse_args(s, at, id, j) == Ok::<(Seq<int>, int), PathParseError>((seq![v] + rest, end)),
{
}

/// The text of the arguments from one on is what separates it from the
/// one before, its text, and the text of the others.
pub proof fn lemma_tail_text_step(args: Seq<int>, j: int, nes: bool)
    requires
        0 <= j < args.len(),
    ensures
        tail_text(args, j, nes) == ((if j > 0 {
            separator(args[j - 1], args[j], nes)
        } else {
            Seq::empty()
        }) + number_text(args[j])) + tail_text(args, j + 1, nes),
        (if j > 0 {
            separator(args[j - 1], args[j], nes)
        } else {
            Seq::<char>::empty()
        }).len() <= 1,
        j + 1 == args.len() ==> tail_text(args, j + 1, nes).len() == 0,
{
}

/// The arguments of a command that stand in a text, before what can end
/// the last of them, are read back.
#[verifier::rlimit(40)]
pub proof fn lemma_parse_tail(s: Seq<char>, at: int, c: CommandView, j: int, nes: bool)
    requires
        canonical(c),
        0 <= j <= c.args.len(),
        holds(s, at, tail_text(c.args, j, nes)),
        j < c.args.len() ==> ends_number(
            s,
            at + tail_text(c.args, j, nes).len(),
            pointed(c.args.last()),
        ),
    ensures
        parse_args(s, at, c.id, j) == Ok::<(Seq<int>, int), PathParseError>(
            (c.args.skip(j), at + tail_text(c.args, j, nes).len()),
        ),
    decreases c.args.len() - j,
{
    let n = c.args.len() as int;
    if j >= n {
        assert(c.args.skip(j) =~= Seq::<int>::empty());
        assert(tail_text(c.args, j, nes).len() == 0);
    } else {
        let v = c.args[j];
        let sep: Seq<char> = if j > 0 {
            separator(c.args[j - 1], v, nes)
        } else {
            Seq::empty()
        };
        let number = number_text(v);
        let rest = tail_text(c.args, j + 1, nes);
        let after = at + sep.len() + number.len();
        lemma_tail_text_step(c.args, j, nes);
        lemma_holds_split(s, at, sep + number, rest);
        assert(-MAX_UNITS <= v <= MAX_UNITS);
        assert(ends_number(s, after, pointed(v))) by {
            if j + 1 < n {
                assert(-MAX_UNITS <= c.args[j + 1] <= MAX_UNITS);
                lemma_next_ends(s, after, c.args, j, nes);
            }
        }
        assert(skip_separators(s, at) == at + sep.len() && parse_arg(
            s,
            at + sep.len(),
            c.id,
            j,
        ) == Some((v, after))) by {
            lemma_parse_one(s, at, sep, v, c.id, j);
        }
        lemma_parse_tail(s, after, c, j + 1, nes);
        lemma_parse_args_step(
            s,
            at,
            c.id,
            j,
            v,
            after,
            c.args.skip(j + 1),
            after + rest.len(),
        );
        assert(seq![v] + c.args.skip(j + 1) =~= c.args.skip(j));
    }
}

/// The text of the commands of `path` from the `i`th on.
pub open spec fn suffix_text(path: Seq<CommandView>, i: int, nes: bool) -> Seq<char>
    decreases path.len() - i,
{
    if i < 0 || i >= path.len() {
        Seq::empty()
    } else {
        command_text(path, i, nes) + suffix_text(path, i + 1, nes)
    }
}

/// The text of a path is the text of its first commands and then that of
/// the others.
pub proof fn lemma_path_text_split(path: Seq<CommandView>, i: int, nes: bool)
    requires
        0 <= i <= path.len(),
    ensures
        path_text(path, nes) == prefix_text(path, i, nes) + suffix_text(path, i, nes),
    decreases path.len() - i,
{
    if i == path.len() {
        assert(prefix_text(path, i, nes) + Seq::<char>::empty() =~= prefix_text(path, i, nes));
    } else {
        lemma_path_text_split(path, i + 1, nes);
        assert((prefix_text(path, i, nes) + command_text(path, i, nes)) + suffix_text(
            path,
            i + 1,
            nes,
        ) =~= prefix_text(path, i, nes) + (command_text(path, i, nes) + suffix_text(
            path,
            i + 1,
            nes,
        )));
    }
}

/// Whether every command of `path` is canonical and the first is a move.
pub open spec fn canonical_path(path: Seq<CommandView>) -> bool {
    &&& forall|i: int| 0 <= i < path.len() ==> canonical(#[trigger] path[i])
    &&& path.len() > 0 ==> path[0].id.spec_is_move()
}

/// The path as it is read back: a command is implicit exactly where it is
/// written without its letter.
pub open spec fn normalized(path: Seq<CommandView>) -> Seq<CommandView> {
    Seq::new(
        path.len(),
        |i: int|
            CommandView { id: path[i].id, implicit: written_bare(path, i), args: path[i].args },
    )
}

/// The kind of the command before the `i`th.
pub open spec fn previous(path: Seq<CommandView>, i: int) -> Option<ID> {
    if i <= 0 {
        None
    } else {
        Some(path[i - 1].id)
    }
}

/// A letter of a command is read as the kind it was written for, and is
/// nothing that belongs to a number or separates.
pub proof fn lemma_letter(id: ID)
    ensures
        ID::spec_from_letter(id.spec_letter()) == Some(id),
        !is_separator(id.spec_letter()),
        !is_digit(id.spec_letter()),
        id.spec_letter() != 'e',
        id.spec_letter() != 'E',
        id.spec_letter() != '.',
{
}

/// Reading commands is reading one and then the others.
pub proof fn lemma_parse_commands_step(
    s: Seq<char>,
    at: int,
    prev: Option<ID>,
    head: (ID, bool, int),
    args: Seq<int>,
    end: int,
    rest: Seq<CommandView>,
)
    requires
        0 <= at <= skip_separators(s, at) < s.len(),
        command_head(s, skip_separators(s, at), prev) == Ok::<(ID, bool, int), PathParseError>(
            head,
        ),
        parse_args(s, head.2, head.0, 0) == Ok::<(Seq<int>, int), PathParseError>((args, end)),
        skip_separators(s, at) < end <= s.len(),
        parse_commands(s, end, Some(head.0)) == Ok::<Seq<CommandView>, PathParseError>(rest),
    ensures
        parse_commands(s, at, prev) == Ok::<Seq<CommandView>, PathParseError>(
            seq![CommandView { id: head.0, implicit: head.1, args }] + rest,
        ),
{
}

/// What stands after a command with arguments ends its last argument.
#[verifier::rlimit(40)]
pub proof fn lemma_command_end(s: Seq<char>, end: int, path: Seq<CommandView>, i: int, nes: bool)
    requires
        canonical_path(path),
        0 <= i < path.len(),
        path[i].args.len() > 0,
        holds(s, end, suffix_text(path, i + 1, nes)),
        end + suffix_text(path, i + 1, nes).len() == s.len(),
    ensures
        ends_number(s, end, pointed(path[i].args.last())),
{
    reveal(holds);
    if i + 1 < path.len() {
        let next = path[i + 1];
        let text = command_text(path, i + 1, nes);
        let rest = suffix_text(path, i + 2, nes);
        assert(suffix_text(path, i + 1, nes) == text + rest);
        lemma_holds_split(s, end, text, rest);
        assert(canonical(next));
        if written_bare(path, i + 1) {
            next.id.lemma_continued();
            lemma_args_text_tail(next.args, 0, nes);
            assert(next.args.take(0).len() == 0);
            lemma_tail_text_step(next.args, 0, nes);
            let first = number_text(next.args[0]);
            let sep = separator(path[i].args.last(), next.args[0], nes);
            let others = tail_text(next.args, 1, nes);
            assert(args_text(next.args, nes) =~= first + others);
            assert(text =~= (sep + first) + others);
            lemma_holds_split(s, end, sep + first, others);
            assert(-MAX_UNITS <= next.args[0] <= MAX_UNITS);
            lemma_separator_ends(s, end, path[i].args.last(), next.args[0], nes);
        } else {
            lemma_letter(next.id);
            assert(s[end + 0] == text[0]);
        }
    } else {
        assert(suffix_text(path, i + 1, nes).len() == 0);
    }
}

impl ID {
    /// A kind that continues another takes arguments.
    pub proof fn lemma_continued(self)
        ensures
            forall|before: ID| before.spec_continuation() == Some(self) ==> self.spec_arity() > 0,
    {
        assert forall|before: ID| before.spec_continuation() == Some(self) implies self.spec_arity()
            > 0 by {
            if self == ID::ClosePath {
                assert(before.spec_continuation() != Some(ID::ClosePath));
            }
        }
    }
}

/// The head of a command that stands in a text with its letter is read
/// back.
#[verifier::rlimit(40)]
pub proof fn lemma_head_explicit(s: Seq<char>, at: int, path: Seq<CommandView>, i: int, nes: bool)
    requires
        canonical_path(path),
        0 <= i < path.len(),
        !written_bare(path, i),
        holds(s, at, command_text(path, i, nes)),
    ensures
        skip_separators(s, at) == at,
        at < s.len(),
        command_head(s, at, previous(path, i)) == Ok::<(ID, bool, int), PathParseError>(
            (path[i].id, false, at + 1),
        ),
        holds(s, at + 1, tail_text(path[i].args, 0, nes)),
        command_text(path, i, nes).len() == 1 + tail_text(path[i].args, 0, nes).len(),
{
    reveal(command_head);
    reveal(holds);
    let c = path[i];
    let text = command_text(path, i, nes);
    lemma_letter(c.id);
    assert(s[at + 0] == text[0]);
    lemma_skip_run(s, at, 0);
    lemma_args_text_tail(c.args, 0, nes);
    assert(c.args.take(0).len() == 0);
    assert(args_text(c.args, nes) =~= tail_text(c.args, 0, nes));
    lemma_holds_split(s, at, seq![c.id.spec_letter()], args_text(c.args, nes));
    assert(canonical(path[0]));
}

/// The head of a command that stands in a text without its letter is read
/// back.
#[verifier::rlimit(40)]
pub proof fn lemma_head_bare(s: Seq<char>, at: int, path: Seq<CommandView>, i: int, nes: bool)
    requires
        canonical_path(path),
        0 <= i < path.len(),
        written_bare(path, i),
        holds(s, at, command_text(path, i, nes)),
    ensures
        ({
            let sep = separator(path[i - 1].args.last(), path[i].args[0], nes);
            let from = at + sep.len();
            &&& skip_separators(s, at) == from
            &&& from < s.len()
            &&& command_head(s, from, previous(path, i)) == Ok::<(ID, bool, int), PathParseError>(
                (path[i].id, true, from),
            )
            &&& holds(s, from, tail_text(path[i].args, 0, nes))
            &&& command_text(path, i, nes).len() == sep.len() + tail_text(
                path[i].args,
                0,
                nes,
            ).len()
            &&& tail_text(path[i].args, 0, nes).len() > 0
        }),
{
    reveal(command_head);
    reveal(holds);
    let c = path[i];
    let sep = separator(path[i - 1].args.last(), c.args[0], nes);
    let text = command_text(path, i, nes);
    assert(canonical(c));
    c.id.lemma_continued();
    lemma_args_text_tail(c.args, 0, nes);
    assert(c.args.take(0).len() == 0);
    assert(args_text(c.args, nes) =~= tail_text(c.args, 0, nes));
    lemma_tail_text_step(c.args, 0, nes);
    let first = number_text(c.args[0]);
    let others = tail_text(c.args, 1, nes);
    assert(text =~= (sep + first) + others);
    lemma_holds_split(s, at, sep + first, others);
    assert(-MAX_UNITS <= c.args[0] <= MAX_UNITS);
    lemma_separator_ends(s, at, path[i - 1].args.last(), c.args[0], nes);
    lemma_holds_split(s, at, sep, tail_text(c.args, 0, nes));
    lemma_number_head(c.args[0]);
    let from = at + sep.len();
    lemma_holds_split(s, at, sep, first);
    assert(s[from + 0] == first[0]);
}

/// The commands of a path that stand in a text up to its end are read
/// back.
#[verifier::rlimit(40)]
pub proof fn lemma_parse_suffix(s: Seq<char>, at: int, path: Seq<CommandView>, i: int, nes: bool)
    requires
        canonical_path(path),
        0 <= i <= path.len(),
        holds(s, at, suffix_text(path, i, nes)),
        at + suffix_text(path, i, nes).len() == s.len(),
    ensures
        parse_commands(s, at, previous(path, i)) == Ok::<Seq<CommandView>, PathParseError>(
            normalized(path).skip(i),
        ),
    decreases path.len() - i,
{
    if i == path.len() {
        assert(suffix_text(path, i, nes).len() == 0);
        assert(0 <= at) by {
            reveal(holds);
        }
        lemma_skip_run(s, at, 0);
        assert(normalized(path).skip(i) =~= Seq::<CommandView>::empty());
    } else {
        let c = path[i];
        let text = command_text(path, i, nes);
        let rest = suffix_text(path, i + 1, nes);
        let end = at + text.len();
        assert(suffix_text(path, i, nes) == text + rest);
        lemma_holds_split(s, at, text, rest);
        assert(canonical(c));
        assert(0 <= at) by {
            reveal(holds);
        }
        if c.args.len() > 0 {
            lemma_command_end(s, end, path, i, nes);
        }
        let bare = written_bare(path, i);
        let from = if bare {
            let sep = separator(path[i - 1].args.last(), c.args[0], nes);
            lemma_head_bare(s, at, path, i, nes);
            at + sep.len()
        } else {
            lemma_head_explicit(s, at, path, i, nes);
            at + 1
        };
        lemma_parse_tail(s, from, c, 0, nes);
        assert(c.args.skip(0) =~= c.args);
        lemma_parse_suffix(s, end, path, i + 1, nes);
        lemma_parse_commands_step(
            s,
            at,
            previous(path, i),
            (c.id, bare, from),
            c.args,
            end,
            normalized(path).skip(i + 1),
        );
        assert(seq![CommandView { id: c.id, implicit: bare, args: c.args }] + normalized(
            path,
        ).skip(i + 1) =~= normalized(path).skip(i));
    }
}

/// What is written reads back: the text of a path whose commands are
/// canonical and whose first command is a move is read as that path, each
/// command implicit exactly where it is written without its letter.
pub proof fn lemma_round_trip(path: Seq<CommandView>, nes: bool)
    requires
        canonical_path(path),
    ensures
        spec_parse(path_text(path, nes)) == Ok::<Seq<CommandView>, PathParseError>(
            normalized(path),
        ),
{
    let s = path_text(path, nes);
    lemma_path_text_split(path, 0, nes);
    assert(prefix_text(path, 0, nes).len() == 0);
    assert(s =~= suffix_text(path, 0, nes));
    assert(holds(s, 0, suffix_text(path, 0, nes))) by {
        reveal(holds);
    }
    lemma_parse_suffix(s, 0, path, 0, nes);
    assert(normalized(path).skip(0) =~= normalized(path));
}

/// The flags among the arguments that are read are zero or one.
pub proof fn lemma_parsed_flags(s: Seq<char>, i: int, id: ID, j: int)
    requires
        0 <= i <= s.len(),
        0 <= j <= id.spec_arity(),
    ensures
        match parse_args(s, i, id, j) {
            Ok((args, end)) => forall|k: int|
                0 <= k < args.len() && is_flag(id, j + k) ==> #[trigger] args[k] == 0 || args[k]
                    == UNIT,
            Err(_) => true,
        },
    decreases id.spec_arity() - j,
{
    reveal(parse_arg);
    if j < id.spec_arity() {
        lemma_skip_separators(s, i);
        let at = skip_separators(s, i);
        match parse_arg(s, at, id, j) {
            None => {},
            Some((value, next)) => {
                if !is_flag(id, j) {
                    crate::scan::lemma_scan_number(s, at);
                }
                lemma_parsed_flags(s, next, id, j + 1);
                match parse_args(s, next, id, j + 1) {
                    Ok((rest, end)) => {
                        let args = seq![value] + rest;
                        assert forall|k: int|
                            0 <= k < args.len() && is_flag(id, j + k) implies #[trigger] args[k]
                            == 0 || args[k] == UNIT by {
                            if k > 0 {
                                assert(args[k] == rest[k - 1]);
                            }
                        }
                    },
                    Err(_) => {},
                }
            },
        }
    }
}

/// Whether command `k` of `r`, if it is implicit, continues the command
/// before it.
pub open spec fn continues(r: Seq<CommandView>, k: int) -> bool {
    r[k].implicit ==> r[k - 1].id.spec_continuation() == Some(r[k].id)
}

/// What holds of the commands that are read after a command of the kind
/// `prev`: each is canonical, and one is implicit only where its kind
/// continues the command before it; the first of a path is a move with
/// its letter.
pub open spec fn parsed_shape(r: Seq<CommandView>, prev: Option<ID>) -> bool {
    &&& forall|k: int| 0 <= k < r.len() ==> canonical(#[trigger] r[k])
    &&& forall|k: int| 0 < k < r.len() ==> #[trigger] continues(r, k)
    &&& r.len() > 0 && r[0].implicit ==> prev is Some && prev.unwrap().spec_continuation() == Some(
        r[0].id,
    )
    &&& r.len() > 0 && prev is None ==> r[0].id.spec_is_move()
}

/// A command before commands of the shape of what is read gives commands
/// of that shape.
pub proof fn lemma_shape_step(first: CommandView, rest: Seq<CommandView>, prev: Option<ID>)
    requires
        canonical(first),
        parsed_shape(rest, Some(first.id)),
        first.implicit ==> prev is Some && prev.unwrap().spec_continuation() == Some(first.id),
        prev is None ==> first.id.spec_is_move(),
    ensures
        parsed_shape(seq![first] + rest, prev),
{
    let r = seq![first] + rest;
    assert forall|k: int| 0 <= k < r.len() implies canonical(#[trigger] r[k]) by {
        if k > 0 {
            assert(r[k] == rest[k - 1]);
        }
    }
    assert forall|k: int| 0 < k < r.len() implies #[trigger] continues(r, k) by {
        assert(r[k] == rest[k - 1]);
        if k > 1 {
            assert(r[k - 1] == rest[k - 2]);
            assert(continues(rest, k - 1));
        }
    }
}

/// The commands that are read have the shape of what is read.
#[verifier::rlimit(40)]
pub proof fn lemma_parsed_shape(s: Seq<char>, i: int, prev: Option<ID>)
    requires
        0 <= i <= s.len(),
    ensures
        match parse_commands(s, i, prev) {
            Ok(r) => parsed_shape(r, prev),
            Err(_) => true,
        },
    decreases s.len() - i,
{
    lemma_skip_separators(s, i);
    let at = skip_separators(s, i);
    if at < s.len() {
        crate::parser::lemma_command_head(s, at, prev);
        match command_head(s, at, prev) {
            Err(_) => {},
            Ok((id, implicit, from)) => {
                lemma_parse_args(s, from, id, 0);
                lemma_parsed_flags(s, from, id, 0);
                match parse_args(s, from, id, 0) {
                    Err(_) => {},
                    Ok((args, end)) => {
                        let first = CommandView { id, implicit, args };
                        assert(canonical(first));
                        if end <= at || end > s.len() {
                            lemma_shape_step(first, Seq::empty(), prev);
                            assert(seq![first] + Seq::<CommandView>::empty() =~= seq![first]);
                        } else {
                            lemma_parsed_shape(s, end, Some(id));
                            match parse_commands(s, end, Some(id)) {
                                Err(_) => {},
                                Ok(rest) => {
                                    lemma_shape_step(first, rest, prev);
                                },
                            }
                        }
                    },
                }
            },
        }
    }
}

/// A path that was read is one that its text is read back as.
pub proof fn lemma_parsed_normal(path: Seq<CommandView>)
    requires
        parsed_shape(path, None),
    ensures
        canonical_path(path),
        normalized(path) == path,
{
    assert(normalized(path) =~= path) by {
        assert forall|i: int| 0 <= i < path.len() implies normalized(path)[i] == path[i] by {
            if i == 0 {
                assert(!path[0].implicit);
            } else {
                assert(continues(path, i));
            }
        }
    }
}

/// Reading, writing and reading again gives what reading gave: the text of
/// a path that was read from a text is read as that path.
pub proof fn lemma_reads_back(s: Seq<char>, nes: bool)
    requires
        spec_parse(s) is Ok,
    ensures
        spec_parse(path_text(spec_parse(s).unwrap(), nes)) == spec_parse(s),
{
    let path = spec_parse(s).unwrap();
    lemma_parsed_shape(s, 0, None);
    lemma_parsed_normal(path);
    lemma_round_trip(path, nes);
}

} // verus!
