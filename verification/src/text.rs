//! Text built character by character: decimal numbers and padded fields.

use vstd::prelude::*;

verus! {

/// `String::push` of std appends the character to the end of the string.
pub assume_specification[ String::push ](text: &mut String, c: char)
    ensures
        final(text)@ == old(text)@.push(c),
;

/// `String::push_str` of std appends the given text to the end of the string.
pub assume_specification[ String::push_str ](text: &mut String, piece: &str)
    ensures
        final(text)@ == old(text)@ + piece@,
;

/// The decimal digit of a value below ten.
pub open spec fn decimal_digit(value: int) -> char {
    (48 + value) as char
}

/// The decimal text of a number, without leading zeros.
pub open spec fn decimal_text(n: nat) -> Seq<char>
    decreases n,
{
    if n < 10 {
        seq![decimal_digit(n as int)]
    } else {
        decimal_text(n / 10).push(decimal_digit((n % 10) as int))
    }
}

/// The last `width` decimal digits of a number, with leading zeros.
pub open spec fn padded_text(n: nat, width: nat) -> Seq<char>
    decreases width,
{
    if width == 0 {
        Seq::empty()
    } else {
        padded_text(n / 10, (width - 1) as nat).push(decimal_digit((n % 10) as int))
    }
}

/// The character of a decimal digit.
fn digit_char(value: u8) -> (c: char)
    requires
        value < 10,
    ensures
        c == decimal_digit(value as int),
{
    (48 + value) as char
}

/// Appends the decimal text of `n` to `text`.
pub fn push_decimal(text: &mut String, n: u128)
    ensures
        final(text)@ == old(text)@ + decimal_text(n as nat),
{
    let mut digits: Vec<char> = Vec::new();
    let mut rest = n;
    while rest >= 10
        invariant
            decimal_text(n as nat) == decimal_text(rest as nat) + digits@.reverse(),
        decreases rest,
    {
        let ghost before = digits@;
        digits.push(digit_char((rest % 10) as u8));
        proof {
            assert(digits@.reverse() =~= seq![decimal_digit((rest % 10) as int)] + before.reverse());
            assert(decimal_text(rest as nat) == decimal_text((rest / 10) as nat).push(
                decimal_digit((rest % 10) as int),
            ));
            assert(decimal_text(rest as nat) + before.reverse() =~= decimal_text((rest / 10) as nat)
                + digits@.reverse());
        }
        rest = rest / 10;
    }
    text.push(digit_char(rest as u8));
    let ghost start = text@;
    let mut i: usize = digits.len();
    while i > 0
        invariant
            i <= digits.len(),
            text@ == start + digits@.reverse().take(digits@.len() - i),
        decreases i,
    {
        i = i - 1;
        text.push(digits[i]);
        proof {
            let r = digits@.reverse();
            let k = digits@.len() - i - 1;
            assert(r[k] == digits@[i as int]);
            assert(r.take(k + 1) =~= r.take(k).push(r[k]));
        }
    }
    proof {
        let r = digits@.reverse();
        assert(r.take(digits@.len() as int) =~= r);
        assert(start == old(text)@.push(decimal_digit(rest as int)));
        assert(decimal_text(rest as nat) =~= seq![decimal_digit(rest as int)]);
        assert(text@ =~= old(text)@ + decimal_text(n as nat));
    }
}

/// Appends the last six decimal digits of `n` to `text`, zeros included.
pub fn push_six_digits(text: &mut String, n: u128)
    ensures
        final(text)@ == old(text)@ + padded_text(n as nat, 6),
{
    let d5 = digit_char(((n / 100000) % 10) as u8);
    let d4 = digit_char(((n / 10000) % 10) as u8);
    let d3 = digit_char(((n / 1000) % 10) as u8);
    let d2 = digit_char(((n / 100) % 10) as u8);
    let d1 = digit_char(((n / 10) % 10) as u8);
    let d0 = digit_char((n % 10) as u8);
    text.push(d5);
    text.push(d4);
    text.push(d3);
    text.push(d2);
    text.push(d1);
    text.push(d0);
    proof {
        reveal_with_fuel(padded_text, 7);
        let m = n as nat;
        assert(m / 10 / 10 == m / 100);
        assert(m / 100 / 10 == m / 1000);
        assert(m / 1000 / 10 == m / 10000);
        assert(m / 10000 / 10 == m / 100000);
        assert(text@ =~= old(text)@ + padded_text(m, 6));
    }
}

} // verus!
