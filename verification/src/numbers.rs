//! Decimal digit strings: their numeric value, and rendering a number
//! back to its canonical digit string.

use vstd::prelude::*;

use crate::text::push_char;

verus! {

/// The character is one of the ten decimal digits.
pub open spec fn is_digit(c: char) -> bool {
    48 <= c as u32 <= 57
}

/// The numeric value of one decimal digit character.
pub open spec fn digit_val(c: char) -> nat
    recommends
        is_digit(c),
{
    (c as u32 - 48) as nat
}

/// The string is non-empty and made of decimal digits only.
pub open spec fn all_digits(s: Seq<char>) -> bool {
    s.len() > 0 && forall|i: int| 0 <= i < s.len() ==> is_digit(#[trigger] s[i])
}

/// The numeric value of a digit string, most significant digit first.
/// Leading zeros carry no meaning: `"01"` has the value 1.
pub open spec fn dec_val(s: Seq<char>) -> nat
    decreases s.len(),
{
    if s.len() == 0 {
        0
    } else {
        dec_val(s.drop_last()) * 10 + digit_val(s.last())
    }
}

/// The decimal digit character for a value below ten.
pub open spec fn digit_char(d: nat) -> char
    recommends
        d < 10,
{
    if d == 0 {
        '0'
    } else if d == 1 {
        '1'
    } else if d == 2 {
        '2'
    } else if d == 3 {
        '3'
    } else if d == 4 {
        '4'
    } else if d == 5 {
        '5'
    } else if d == 6 {
        '6'
    } else if d == 7 {
        '7'
    } else if d == 8 {
        '8'
    } else {
        '9'
    }
}

/// The canonical decimal rendering of a number: no sign, no leading zero
/// except for the single digit `"0"` itself.
pub open spec fn dec_digits(n: nat) -> Seq<char>
    decreases n,
{
    if n < 10 {
        seq![digit_char(n)]
    } else {
        dec_digits(n / 10).push(digit_char(n % 10))
    }
}

/// A digit string is worth at least any of its prefixes: extending a
/// digit string never lowers its value.
pub proof fn lemma_dec_val_prefix(s: Seq<char>, i: int)
    requires
        0 <= i <= s.len(),
    ensures
        dec_val(s.take(i)) <= dec_val(s),
    decreases s.len(),
{
    if i < s.len() {
        assert(s.drop_last().take(i) =~= s.take(i));
        lemma_dec_val_prefix(s.drop_last(), i);
        assert(dec_val(s.drop_last()) * 10 >= dec_val(s.drop_last())) by (nonlinear_arith);
    } else {
        assert(s.take(i) =~= s);
    }
}

fn digit_to_char(d: usize) -> (c: char)
    requires
        d < 10,
    ensures
        c == digit_char(d as nat),
{
    if d == 0 {
        '0'
    } else if d == 1 {
        '1'
    } else if d == 2 {
        '2'
    } else if d == 3 {
        '3'
    } else if d == 4 {
        '4'
    } else if d == 5 {
        '5'
    } else if d == 6 {
        '6'
    } else if d == 7 {
        '7'
    } else if d == 8 {
        '8'
    } else {
        '9'
    }
}

pub(crate) fn char_to_digit(c: char) -> (d: usize)
    requires
        is_digit(c),
    ensures
        d == digit_val(c),
        d < 10,
{
    (c as u32 - 48) as usize
}

/// Renders a number as its canonical decimal digit string.
pub fn dec_string(n: usize) -> (s: String)
    ensures
        s@ == dec_digits(n as nat),
    decreases n,
{
    if n < 10 {
        let mut s = String::new();
        push_char(&mut s, digit_to_char(n));
        assert(s@ =~= seq![digit_char(n as nat)]);
        s
    } else {
        let mut s = dec_string(n / 10);
        push_char(&mut s, digit_to_char(n % 10));
        s
    }
}

} // verus!
