//! Writing a fixed-point number in decimal notation.

use crate::fixed::UNIT;
use vstd::prelude::*;
use vstd::string::StringExecFns;

verus! {

/// The character of a decimal digit.
pub open spec fn digit(d: int) -> char
    recommends
        0 <= d <= 9,
{
    if d == 0 {
        '0'
    } else if d == 1 {
        '1'
    } else if d == 2 {
        '2'
    } else if d == 3 {
        '3'
    } else if d == 4 {
        '4'
    } else if d == 5 {
        '5'
    } else if d == 6 {
        '6'
    } else if d == 7 {
        '7'
    } else if d == 8 {
        '8'
    } else {
        '9'
    }
}

/// The decimal digits of a natural number, without leading zeros.
pub open spec fn digits(n: nat) -> Seq<char>
    decreases n,
{
    if n < 10 {
        seq![digit(n as int)]
    } else {
        digits(n / 10).push(digit((n % 10) as int))
    }
}

/// The digits behind the decimal point of `part / scale`, where `scale` is a
/// power of ten and `part < scale`: as many as are needed, so that no zero
/// stands at the end.
pub open spec fn fraction_digits(part: nat, scale: nat) -> Seq<char>
    decreases scale,
{
    if part == 0 || scale < 10 {
        Seq::empty()
    } else {
        seq![digit((part / (scale / 10)) as int)] + fraction_digits(
            part % (scale / 10),
            scale / 10,
        )
    }
}

/// The decimal notation of `raw` millionths: a minus sign if it is negative,
/// the whole part, and, unless the number is whole, a point and the
/// fraction without zeros at its end.
pub open spec fn decimal(raw: int) -> Seq<char> {
    let magnitude = if raw < 0 {
        (-raw) as nat
    } else {
        raw as nat
    };
    let sign = if raw < 0 {
        seq!['-']
    } else {
        Seq::empty()
    };
    let whole = digits(magnitude / (UNIT as nat));
    if magnitude % (UNIT as nat) == 0 {
        sign + whole
    } else {
        sign + whole + seq!['.'] + fraction_digits(magnitude % (UNIT as nat), UNIT as nat)
    }
}

/// Appends one decimal digit to a text.
fn push_digit(text: &mut String, d: u64)
    requires
        d <= 9,
    ensures
        final(text)@ == old(text)@.push(digit(d as int)),
{
    proof {
        reveal_strlit("0");
        reveal_strlit("1");
        reveal_strlit("2");
        reveal_strlit("3");
        reveal_strlit("4");
        reveal_strlit("5");
        reveal_strlit("6");
        reveal_strlit("7");
        reveal_strlit("8");
        reveal_strlit("9");
    }
    let piece = if d == 0 {
        "0"
    } else if d == 1 {
        "1"
    } else if d == 2 {
        "2"
    } else if d == 3 {
        "3"
    } else if d == 4 {
        "4"
    } else if d == 5 {
        "5"
    } else if d == 6 {
        "6"
    } else if d == 7 {
        "7"
    } else if d == 8 {
        "8"
    } else {
        "9"
    };
    assert(piece@ =~= seq![digit(d as int)]);
    text.append(piece);
    assert(text@ =~= old(text)@.push(digit(d as int)));
}

/// Appends the decimal digits of `n` to a text.
fn push_digits(text: &mut String, n: u64)
    ensures
        final(text)@ == old(text)@ + digits(n as nat),
    decreases n,
{
    if n >= 10 {
        push_digits(text, n / 10);
        push_digit(text, n % 10);
        assert(text@ =~= old(text)@ + digits(n as nat));
    } else {
        push_digit(text, n);
        assert(text@ =~= old(text)@ + digits(n as nat));
    }
}

/// Appends the digits behind the decimal point of `part` millionths.
fn push_fraction(text: &mut String, part: u64)
    requires
        part < 1_000_000,
    ensures
        final(text)@ == old(text)@ + fraction_digits(part as nat, UNIT as nat),
{
    let mut rest: u64 = part;
    let mut scale: u64 = 1_000_000;
    while rest != 0 && scale >= 10
        invariant
            rest < scale,
            scale == 1_000_000 || scale == 100_000 || scale == 10_000 || scale == 1_000 || scale
                == 100 || scale == 10 || scale == 1,
            old(text)@ + fraction_digits(part as nat, UNIT as nat) == text@ + fraction_digits(
                rest as nat,
                scale as nat,
            ),
        decreases scale,
    {
        let step: u64 = scale / 10;
        let ghost before = text@;
        assert(rest / step <= 9) by (nonlinear_arith)
            requires
                rest < 10 * step,
                step > 0,
        ;
        push_digit(text, rest / step);
        assert(before + fraction_digits(rest as nat, scale as nat) =~= text@ + fraction_digits(
            (rest % step) as nat,
            step as nat,
        ));
        rest = rest % step;
        scale = step;
    }
    assert(text@ + fraction_digits(rest as nat, scale as nat) =~= text@);
}

/// Writes `raw` millionths in decimal notation.
pub fn to_decimal(raw: i64) -> (text: String)
    ensures
        text@ == decimal(raw as int),
{
    let mut text = String::new();
    let magnitude: u64 = if raw < 0 {
        proof {
            reveal_strlit("-");
        }
        text.append("-");
        (-(raw as i128)) as u64
    } else {
        raw as u64
    };
    let ghost sign = text@;
    assert(sign =~= if raw < 0 {
        seq!['-']
    } else {
        Seq::empty()
    });
    push_digits(&mut text, magnitude / 1_000_000);
    let part: u64 = magnitude % 1_000_000;
    if part != 0 {
        proof {
            reveal_strlit(".");
        }
        let ghost whole = text@;
        text.append(".");
        assert(text@ =~= whole + seq!['.']);
        push_fraction(&mut text, part);
    }
    text
}

/// Appends the decimal notation of `raw` millionths to a text.
pub fn push_decimal(text: &mut String, raw: i64)
    ensures
        final(text)@ == old(text)@ + decimal(raw as int),
{
    let number = to_decimal(raw);
    text.append(number.as_str());
}

} // verus!
