//! Rendering a roll outcome as text.
//!
//! The rendered form of rolls `[3, 5]` with total `8` is `" 3 5 (total 8)"`:
//! one space-prefixed value per die in draw order, then the total in
//! parentheses. [`spec_format`] pins the output character by character, and
//! the decimal rendering is proved to parse back to the value it came from,
//! which ties the formatter to the parser.

use crate::expr::{
    all_digits, digit_val, digits_val, is_digit, is_separator, lemma_sep_index_unique, spec_parse,
    DiceError, DiceExpression, Limits,
};
use crate::roll::RollResult;
use vstd::arithmetic::div_mod::lemma_fundamental_div_mod;
use vstd::prelude::*;

verus! {

/// The character for one decimal digit value.
pub open spec fn digit_char(d: int) -> char {
    if d == 0 {
        '0'
    } else if d == 1 {
        '1'
    } else if d == 2 {
        '2'
    } else if d == 3 {
        '3'
    } else if d == 4 {
        '4'
    } else if d == 5 {
        '5'
    } else if d == 6 {
        '6'
    } else if d == 7 {
        '7'
    } else if d == 8 {
        '8'
    } else {
        '9'
    }
}

/// The decimal numeral of `n`, most significant digit first, no leading
/// zeros (`0` itself is rendered as one digit).
pub open spec fn dec_digits(n: nat) -> Seq<char>
    decreases n,
{
    if n < 10 {
        seq![digit_char(n as int)]
    } else {
        dec_digits(n / 10).push(digit_char((n % 10) as int))
    }
}

/// A decimal numeral consists of digits and is never empty.
pub proof fn lemma_dec_digits_digits(n: nat)
    ensures
        all_digits(dec_digits(n)),
        dec_digits(n).len() >= 1,
    decreases n,
{
    if n < 10 {
    } else {
        lemma_dec_digits_digits(n / 10);
        let prefix = dec_digits(n / 10);
        let whole = dec_digits(n);
        assert forall|i: int| 0 <= i < whole.len() implies is_digit(whole[i]) by {
            if i < prefix.len() {
                assert(whole[i] == prefix[i]);
            }
        }
    }
}

/// Reading the decimal numeral of `n` back as a number yields `n`.
pub proof fn lemma_dec_digits_val(n: nat)
    ensures
        digits_val(dec_digits(n)) == n,
    decreases n,
{
    if n < 10 {
        let s = dec_digits(n);
        assert(s.drop_last() =~= Seq::<char>::empty());
        assert(s.last() == digit_char(n as int));
        assert(digit_val(digit_char(n as int)) == n);
        assert(digits_val(s) == digits_val(s.drop_last()) * 10 + digit_val(s.last()));
    } else {
        lemma_dec_digits_val(n / 10);
        let s = dec_digits(n);
        assert(s == dec_digits(n / 10).push(digit_char((n % 10) as int)));
        assert(s.drop_last() =~= dec_digits(n / 10));
        assert(s.last() == digit_char((n % 10) as int));
        assert(digit_val(digit_char((n % 10) as int)) == n % 10);
        assert(digits_val(s) == digits_val(s.drop_last()) * 10 + digit_val(s.last()));
        lemma_fundamental_div_mod(n as int, 10);
        assert(10 * (n as int / 10) + (n as int % 10) == n as int);
    }
}

/// The space-prefixed decimal values of the rolls, in draw order.
pub open spec fn spec_format_rolls(rolls: Seq<u32>) -> Seq<char>
    decreases rolls.len(),
{
    if rolls.len() == 0 {
        Seq::<char>::empty()
    } else {
        spec_format_rolls(rolls.drop_last()) + seq![' '] + dec_digits(rolls.last() as nat)
    }
}

/// The text between the rolls and the total.
pub open spec fn total_label() -> Seq<char> {
    seq![' ', '(', 't', 'o', 't', 'a', 'l', ' ']
}

/// The full rendered outcome: each roll space-prefixed in draw order, then
/// the total in parentheses.
pub open spec fn spec_format(rolls: Seq<u32>, total: u64) -> Seq<char> {
    spec_format_rolls(rolls) + total_label() + dec_digits(total as nat) + seq![')']
}

/// Relies on `String::push`: appends the character to the end of the string.
#[verifier::external_body]
fn push_char(s: &mut String, c: char)
    ensures
        final(s)@ == old(s)@.push(c),
{
    s.push(c);
}

/// The character for one decimal digit.
fn digit_char_exec(d: u32) -> (c: char)
    requires
        d < 10,
    ensures
        c == digit_char(d as int),
{
    if d == 0 {
        '0'
    } else if d == 1 {
        '1'
    } else if d == 2 {
        '2'
    } else if d == 3 {
        '3'
    } else if d == 4 {
        '4'
    } else if d == 5 {
        '5'
    } else if d == 6 {
        '6'
    } else if d == 7 {
        '7'
    } else if d == 8 {
        '8'
    } else {
        '9'
    }
}

/// Appends the decimal numeral of `n`.
fn push_decimal(s: &mut String, n: u64)
    ensures
        final(s)@ == old(s)@ + dec_digits(n as nat),
    decreases n,
{
    if n < 10 {
        push_char(s, digit_char_exec(n as u32));
        proof {
            assert(old(s)@.push(digit_char(n as int)) =~= old(s)@ + dec_digits(n as nat));
        }
    } else {
        push_decimal(s, n / 10);
        let ghost mid = s@;
        push_char(s, digit_char_exec((n % 10) as u32));
        proof {
            assert(mid.push(digit_char((n % 10) as int)) =~= old(s)@ + dec_digits(n as nat));
        }
    }
}

/// Renders a roll outcome, e.g. `" 3 5 (total 8)"` for rolls `[3, 5]`.
///
/// The output is exactly [`spec_format`] of the result's fields: the rolls in
/// draw order, each as a space-prefixed decimal, then `" (total "`, the
/// total, and `")"`.
pub fn format_result(r: &RollResult) -> (out: String)
    ensures
        out@ == spec_format(r.rolls@, r.total),
{
    let mut out = String::new();
    let mut i: usize = 0;
    while i < r.rolls.len()
        invariant
            i <= r.rolls@.len(),
            out@ == spec_format_rolls(r.rolls@.subrange(0, i as int)),
        decreases r.rolls@.len() - i,
    {
        let ghost pre = out@;
        push_char(&mut out, ' ');
        push_decimal(&mut out, r.rolls[i] as u64);
        i = i + 1;
        proof {
            let taken = r.rolls@.subrange(0, i as int);
            assert(taken.drop_last() =~= r.rolls@.subrange(0, i - 1));
            assert(taken.last() == r.rolls@[i - 1]);
            assert(out@ =~= spec_format_rolls(taken.drop_last()) + seq![' '] + dec_digits(
                taken.last() as nat,
            ));
        }
    }
    proof {
        assert(r.rolls@.subrange(0, r.rolls@.len() as int) =~= r.rolls@);
    }
    let ghost rolls_part = out@;
    push_char(&mut out, ' ');
    push_char(&mut out, '(');
    push_char(&mut out, 't');
    push_char(&mut out, 'o');
    push_char(&mut out, 't');
    push_char(&mut out, 'a');
    push_char(&mut out, 'l');
    push_char(&mut out, ' ');
    proof {
        assert(out@ =~= rolls_part + total_label());
    }
    push_decimal(&mut out, r.total);
    push_char(&mut out, ')');
    proof {
        assert(out@ =~= spec_format(r.rolls@, r.total));
    }
    out
}

/// The canonical text of a request: the count in decimal, the separator, the
/// side count in decimal.
pub open spec fn spec_notation(count: nat, sides: nat) -> Seq<char> {
    dec_digits(count) + seq!['d'] + dec_digits(sides)
}

/// Round trip from values to text and back: the canonical notation of any
/// valid request within the limits parses to exactly that request. Together
/// with the contract of `roll`, every such request is rolled successfully.
pub proof fn lemma_notation_round_trip(count: u32, sides: u32, limits: Limits)
    requires
        1 <= count <= limits.max_count,
        2 <= sides <= limits.max_sides,
    ensures
        spec_parse(spec_notation(count as nat, sides as nat), limits) == Ok::<
            DiceExpression,
            DiceError,
        >(DiceExpression { count, sides }),
{
    let cd = dec_digits(count as nat);
    let sd = dec_digits(sides as nat);
    let s = spec_notation(count as nat, sides as nat);
    lemma_dec_digits_digits(count as nat);
    lemma_dec_digits_digits(sides as nat);
    lemma_dec_digits_val(count as nat);
    lemma_dec_digits_val(sides as nat);
    assert forall|j: int| 0 <= j < cd.len() implies !is_separator(s[j]) by {
        assert(s[j] == cd[j]);
        assert(is_digit(cd[j]));
    }
    assert(s[cd.len() as int] == 'd');
    lemma_sep_index_unique(s, cd.len() as int);
    assert(s.subrange(0, cd.len() as int) =~= cd);
    assert(s.subrange(cd.len() as int + 1, s.len() as int) =~= sd);
}

} // verus!
