//! Integers keep every digit on their way through JSON text.

use crate::format::{decimal, digit_char, int_text};
use crate::json::pretty_text;
use crate::parser::{
    blank_end, decimal_value, digits_end, document, is_digit, is_json_space, number_at,
    number_end, value_at,
};
use crate::value::{Json, MAX_DEPTH};
use vstd::prelude::*;

verus! {

/// A decimal digit is a digit with the value it was made from.
pub proof fn lemma_digit_char(d: nat)
    requires
        d < 10,
    ensures
        is_digit(digit_char(d)),
        digit_char(d) as u32 == 48 + d,
        !is_json_space(digit_char(d)),
{
}

/// The decimal form of a number is made of digits, and starts with a zero
/// only for zero itself.
pub proof fn lemma_decimal_digits(n: nat)
    ensures
        decimal(n).len() >= 1,
        forall|k: int| 0 <= k < decimal(n).len() ==> is_digit(#[trigger] decimal(n)[k]),
        n >= 1 ==> decimal(n)[0] != '0',
        n == 0 ==> decimal(n) == seq!['0'],
    decreases n,
{
    if n < 10 {
        lemma_digit_char(n);
        assert(decimal(n) =~= seq![digit_char(n)]);
        if n == 0 {
            assert(digit_char(0) == '0');
        } else {
            assert(digit_char(n) as u32 != '0' as u32);
        }
    } else {
        lemma_decimal_digits(n / 10);
        lemma_digit_char(n % 10);
        let head = decimal(n / 10);
        assert(decimal(n) == head.push(digit_char(n % 10)));
        assert(decimal(n)[0] == head[0]);
        assert forall|k: int| 0 <= k < decimal(n).len() implies is_digit(
            #[trigger] decimal(n)[k],
        ) by {
            if k < head.len() {
                assert(decimal(n)[k] == head[k]);
            }
        }
    }
}

/// The decimal form of a number spells that number.
pub proof fn lemma_decimal_value(n: nat)
    ensures
        decimal_value(decimal(n)) == n,
    decreases n,
{
    if n < 10 {
        lemma_digit_char(n);
        let s = decimal(n);
        assert(s =~= seq![digit_char(n)]);
        assert(s.drop_last() =~= Seq::<char>::empty());
        assert(decimal_value(s.drop_last()) == 0);
    } else {
        lemma_decimal_value(n / 10);
        lemma_digit_char(n % 10);
        let s = decimal(n);
        assert(s.drop_last() =~= decimal(n / 10));
        assert(s.last() == digit_char(n % 10));
    }
}

/// A run of digits that ends at the end of the text, or before a character
/// that is no digit, is skipped as a whole.
pub proof fn lemma_digits_run(text: Seq<char>, pos: int, end: int)
    requires
        0 <= pos <= end <= text.len(),
        forall|k: int| pos <= k < end ==> is_digit(#[trigger] text[k]),
        end == text.len() || !is_digit(text[end]),
    ensures
        digits_end(text, pos) == end,
    decreases end - pos,
{
    if pos < end {
        assert(is_digit(text[pos]));
        lemma_digits_run(text, pos + 1, end);
    }
}

/// The text of an integer of 64 bits is read as that integer.
pub proof fn lemma_number_read_back(i: int)
    requires
        -0x8000_0000_0000_0000 <= i <= 0xffff_ffff_ffff_ffff,
    ensures
        number_at(int_text(i), 0) == Some((Json::Int(i), int_text(i).len() as int)),
        int_text(i).len() >= 1,
        !is_json_space(int_text(i)[0]),
        is_digit(int_text(i)[0]) || int_text(i)[0] == '-',
{
    let text = int_text(i);
    let magnitude: nat = if i < 0 {
        (-i) as nat
    } else {
        i as nat
    };
    let digits = decimal(magnitude);
    lemma_decimal_digits(magnitude);
    lemma_decimal_value(magnitude);
    let start: int = if i < 0 {
        1
    } else {
        0
    };
    if i < 0 {
        assert(text =~= seq!['-'] + digits);
        assert(text[0] == '-');
    } else {
        assert(text =~= digits);
    }
    assert forall|k: int| start <= k < text.len() implies is_digit(#[trigger] text[k]) by {
        assert(text[k] == digits[k - start]);
    }
    assert(text[start] == digits[0]);
    assert(is_digit(text[start]));
    let len = text.len() as int;
    if text[start] == '0' {
        assert(magnitude == 0);
        assert(start + 1 == len);
    } else {
        lemma_digits_run(text, start, len);
    }
    assert(number_end(text, 0) == Some((len, true)));
    assert(text.subrange(start, len) =~= digits);
}

/// Integer fidelity: every integer of 64 bits, signed or unsigned, is
/// printed digit for digit, and the parser reads those digits as the same
/// integer. So neither way through JSON text rounds a number such as
/// 9007199254740993.
pub proof fn integers_keep_every_digit(i: int)
    requires
        -0x8000_0000_0000_0000 <= i <= 0xffff_ffff_ffff_ffff,
    ensures
        pretty_text(Json::Int(i), 0) == int_text(i),
        document(int_text(i)) == Some(Json::Int(i)),
{
    let text = int_text(i);
    lemma_number_read_back(i);
    assert(blank_end(text, 0) == 0);
    assert(value_at(text, 0, MAX_DEPTH as nat) == Some((Json::Int(i), text.len() as int)));
    assert(blank_end(text, text.len() as int) == text.len());
}

} // verus!
