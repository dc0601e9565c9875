//! Hex dumps: two upper-case digits per byte, one space between bytes.

use crate::format::{is_space, is_whitespace};
use vstd::prelude::*;

verus! {

/// The upper-case hexadecimal digit for `d`.
pub open spec fn hex_digit_upper(d: nat) -> char {
    if d < 10 {
        (48 + d) as char
    } else {
        (55 + d) as char
    }
}

/// The value of the hexadecimal digit `c`, in either case.
pub open spec fn hex_value(c: char) -> Option<nat> {
    let u = c as u32;
    if 48 <= u <= 57 {
        Some((u - 48) as nat)
    } else if 65 <= u <= 70 {
        Some((u - 55) as nat)
    } else if 97 <= u <= 102 {
        Some((u - 87) as nat)
    } else {
        None
    }
}

/// The dump of the first `n` of `bytes`.
pub open spec fn hex_text(bytes: Seq<u8>, n: nat) -> Seq<char>
    decreases n,
{
    if n == 0 || n > bytes.len() {
        Seq::empty()
    } else {
        let head = if n == 1 {
            Seq::empty()
        } else {
            hex_text(bytes, (n - 1) as nat) + seq![' ']
        };
        head + seq![
            hex_digit_upper(bytes[n - 1] as nat / 16),
            hex_digit_upper(bytes[n - 1] as nat % 16),
        ]
    }
}

/// The first `n` characters of `s` without those that are white space.
pub open spec fn strip_first(s: Seq<char>, n: nat) -> Seq<char>
    decreases n,
{
    if n == 0 || n > s.len() {
        Seq::empty()
    } else if is_whitespace(s[n - 1]) {
        strip_first(s, (n - 1) as nat)
    } else {
        strip_first(s, (n - 1) as nat).push(s[n - 1])
    }
}

/// `s` without its white space.
pub open spec fn stripped(s: Seq<char>) -> Seq<char> {
    strip_first(s, s.len())
}

/// The bytes that the first `n` pairs of digits in `digits` spell.
pub open spec fn hex_bytes(digits: Seq<char>, n: nat) -> Seq<u8>
    decreases n,
{
    if n == 0 || 2 * n > digits.len() {
        Seq::empty()
    } else {
        hex_bytes(digits, (n - 1) as nat).push(
            (hex_value(digits[2 * n - 2]).unwrap() * 16 + hex_value(
                digits[2 * n - 1],
            ).unwrap()) as u8,
        )
    }
}

/// Whether `digits` are hexadecimal digits, an even number of them.
pub open spec fn is_hex_digits(digits: Seq<char>) -> bool {
    digits.len() % 2 == 0 && forall|i: int|
        0 <= i < digits.len() ==> hex_value(#[trigger] digits[i]) is Some
}

/// The bytes that the dump `s` stands for. White space counts for nothing;
/// what is left must be pairs of hexadecimal digits.
pub open spec fn hex_decode(s: Seq<char>) -> Option<Seq<u8>> {
    let digits = stripped(s);
    if is_hex_digits(digits) {
        Some(hex_bytes(digits, digits.len() / 2))
    } else {
        None
    }
}

/// The upper-case hexadecimal digit for `d`.
fn upper_digit(d: u8) -> (c: char)
    requires
        d < 16,
    ensures
        c == hex_digit_upper(d as nat),
{
    if d < 10 {
        (48u8 + d) as char
    } else {
        (55u8 + d) as char
    }
}

/// The value of the hexadecimal digit `c`, or `None` where `c` is none.
pub fn digit_value(c: char) -> (r: Option<u8>)
    ensures
        match r {
            Some(d) => hex_value(c) == Some(d as nat) && d < 16,
            None => hex_value(c) is None,
        },
{
    let u: u32 = c as u32;
    if 48 <= u && u <= 57 {
        Some((u - 48) as u8)
    } else if 65 <= u && u <= 70 {
        Some((u - 55) as u8)
    } else if 97 <= u && u <= 102 {
        Some((u - 87) as u8)
    } else {
        None
    }
}

/// The dump of `bytes`.
pub fn bytes_to_hex(bytes: &[u8]) -> (text: Vec<char>)
    ensures
        text@ == hex_text(bytes@, bytes@.len()),
{
    let mut text: Vec<char> = Vec::new();
    let mut i: usize = 0;
    while i < bytes.len()
        invariant
            i <= bytes.len(),
            text@ == hex_text(bytes@, i as nat),
        decreases bytes.len() - i,
    {
        if i > 0 {
            text.push(' ');
        }
        text.push(upper_digit(bytes[i] / 16));
        text.push(upper_digit(bytes[i] % 16));
        i += 1;
        assert(text@ =~= hex_text(bytes@, i as nat));
    }
    text
}

/// The bytes that the dump `text` stands for, or `None` where what is left
/// of `text` without its white space is not an even number of hexadecimal
/// digits.
pub fn hex_to_bytes(text: &[char]) -> (r: Option<Vec<u8>>)
    ensures
        match r {
            Some(bytes) => hex_decode(text@) == Some(bytes@) && 2 * bytes@.len() <= text@.len(),
            None => hex_decode(text@) is None,
        },
{
    let mut digits: Vec<char> = Vec::new();
    let mut i: usize = 0;
    while i < text.len()
        invariant
            i <= text.len(),
            digits@ == strip_first(text@, i as nat),
            digits@.len() <= i,
        decreases text.len() - i,
    {
        if !is_space(text[i]) {
            digits.push(text[i]);
        }
        i += 1;
    }
    assert(digits@ == stripped(text@));
    if digits.len() % 2 != 0 {
        return None;
    }
    let half: usize = digits.len() / 2;
    let mut bytes: Vec<u8> = Vec::new();
    let mut k: usize = 0;
    while k < half
        invariant
            digits@ == stripped(text@),
            digits@.len() == 2 * half,
            k <= half,
            digits@.len() <= text@.len(),
            bytes@ == hex_bytes(digits@, k as nat),
            bytes@.len() == k,
            forall|j: int| 0 <= j < 2 * k ==> hex_value(#[trigger] digits@[j]) is Some,
        decreases half - k,
    {
        let high = match digit_value(digits[2 * k]) {
            Some(d) => d,
            None => {
                return None;
            },
        };
        let low = match digit_value(digits[2 * k + 1]) {
            Some(d) => d,
            None => {
                return None;
            },
        };
        bytes.push(high * 16 + low);
        k += 1;
    }
    Some(bytes)
}

/// The digits of the first `n` of `bytes`, with nothing between them.
pub open spec fn hex_digits(bytes: Seq<u8>, n: nat) -> Seq<char>
    decreases n,
{
    if n == 0 || n > bytes.len() {
        Seq::empty()
    } else {
        hex_digits(bytes, (n - 1) as nat) + seq![
            hex_digit_upper(bytes[n - 1] as nat / 16),
            hex_digit_upper(bytes[n - 1] as nat % 16),
        ]
    }
}

/// An upper-case digit is no white space and has the value it was made
/// from.
pub proof fn lemma_upper_digit(d: nat)
    requires
        d < 16,
    ensures
        !is_whitespace(hex_digit_upper(d)),
        hex_value(hex_digit_upper(d)) == Some(d),
{
    let c = hex_digit_upper(d);
    if d < 10 {
        assert(c as u32 == 48 + d);
    } else {
        assert(c as u32 == 55 + d);
    }
}

/// What is stripped from the first `n` characters does not depend on what
/// follows them.
pub proof fn lemma_strip_prefix(s: Seq<char>, t: Seq<char>, n: nat)
    requires
        n <= s.len() <= t.len(),
        t.take(s.len() as int) == s,
    ensures
        strip_first(t, n) == strip_first(s, n),
    decreases n,
{
    if n > 0 {
        lemma_strip_prefix(s, t, (n - 1) as nat);
        assert(t.take(s.len() as int)[n - 1] == t[n - 1]);
    }
}

/// Stripping goes character by character.
pub proof fn lemma_strip_push(s: Seq<char>, c: char)
    ensures
        stripped(s.push(c)) == if is_whitespace(c) {
            stripped(s)
        } else {
            stripped(s).push(c)
        },
{
    let t = s.push(c);
    assert(t.take(s.len() as int) =~= s);
    lemma_strip_prefix(s, t, s.len());
}

/// Without its spaces a dump is the digits of its bytes.
pub proof fn lemma_stripped_dump(bytes: Seq<u8>, n: nat)
    requires
        n <= bytes.len(),
    ensures
        stripped(hex_text(bytes, n)) == hex_digits(bytes, n),
        hex_digits(bytes, n).len() == 2 * n,
    decreases n,
{
    if n > 0 {
        lemma_stripped_dump(bytes, (n - 1) as nat);
        let high = hex_digit_upper(bytes[n - 1] as nat / 16);
        let low = hex_digit_upper(bytes[n - 1] as nat % 16);
        lemma_upper_digit(bytes[n - 1] as nat / 16);
        lemma_upper_digit(bytes[n - 1] as nat % 16);
        let before = hex_text(bytes, (n - 1) as nat);
        let head = if n == 1 {
            before
        } else {
            before.push(' ')
        };
        if n > 1 {
            lemma_strip_push(before, ' ');
        } else {
            assert(before =~= Seq::<char>::empty());
        }
        assert(stripped(head) == hex_digits(bytes, (n - 1) as nat));
        lemma_strip_push(head, high);
        lemma_strip_push(head.push(high), low);
        assert(hex_text(bytes, n) =~= head.push(high).push(low));
        assert(hex_digits(bytes, n) =~= hex_digits(bytes, (n - 1) as nat).push(high).push(low));
    } else {
        assert(hex_text(bytes, 0) =~= Seq::<char>::empty());
    }
}

/// The bytes of the first `k` pairs do not depend on what follows them.
pub proof fn lemma_hex_bytes_prefix(s: Seq<char>, t: Seq<char>, k: nat)
    requires
        2 * k <= s.len() <= t.len(),
        t.take(s.len() as int) == s,
    ensures
        hex_bytes(t, k) == hex_bytes(s, k),
    decreases k,
{
    if k > 0 {
        lemma_hex_bytes_prefix(s, t, (k - 1) as nat);
        assert(t.take(s.len() as int)[2 * k - 2] == t[2 * k - 2]);
        assert(t.take(s.len() as int)[2 * k - 1] == t[2 * k - 1]);
    }
}

/// The digits of bytes are hexadecimal digits that spell those bytes.
pub proof fn lemma_digits_spell(bytes: Seq<u8>, n: nat)
    requires
        n <= bytes.len(),
    ensures
        hex_digits(bytes, n).len() == 2 * n,
        is_hex_digits(hex_digits(bytes, n)),
        hex_bytes(hex_digits(bytes, n), n) == bytes.take(n as int),
    decreases n,
{
    if n > 0 {
        lemma_digits_spell(bytes, (n - 1) as nat);
        let before = hex_digits(bytes, (n - 1) as nat);
        let now = hex_digits(bytes, n);
        let b = bytes[n - 1] as nat;
        lemma_upper_digit(b / 16);
        lemma_upper_digit(b % 16);
        assert(now.take(before.len() as int) =~= before);
        lemma_hex_bytes_prefix(before, now, (n - 1) as nat);
        assert(now[2 * n - 2] == hex_digit_upper(b / 16));
        assert(now[2 * n - 1] == hex_digit_upper(b % 16));
        assert(hex_bytes(now, n) =~= bytes.take(n as int));
        assert forall|i: int| 0 <= i < now.len() implies hex_value(#[trigger] now[i]) is Some by {
            if i < before.len() {
                assert(now[i] == before[i]);
            }
        }
    } else {
        assert(hex_bytes(hex_digits(bytes, 0), 0) =~= bytes.take(0));
    }
}

/// Every character of `s` that is no white space stands in what is left of
/// the first `n` characters, where it is among them.
pub proof fn lemma_stripped_keeps(s: Seq<char>, n: nat, i: int)
    requires
        0 <= i < n <= s.len(),
        !is_whitespace(s[i]),
    ensures
        strip_first(s, n).contains(s[i]),
    decreases n,
{
    if i == n - 1 {
        let kept = strip_first(s, n);
        assert(kept[kept.len() - 1] == s[i]);
    } else {
        lemma_stripped_keeps(s, (n - 1) as nat, i);
        let before = strip_first(s, (n - 1) as nat);
        let at = choose|k: int| 0 <= k < before.len() && before[k] == s[i];
        if !is_whitespace(s[n - 1]) {
            assert(strip_first(s, n)[at] == s[i]);
        }
    }
}

/// A dump with an odd number of digits is refused.
pub proof fn odd_dump_is_refused(s: Seq<char>)
    requires
        stripped(s).len() % 2 == 1,
    ensures
        hex_decode(s) is None,
{
}

/// A dump that holds a character which is neither white space nor a
/// hexadecimal digit is refused.
pub proof fn foreign_character_is_refused(s: Seq<char>, i: int)
    requires
        0 <= i < s.len(),
        !is_whitespace(s[i]),
        hex_value(s[i]) is None,
    ensures
        hex_decode(s) is None,
{
    lemma_stripped_keeps(s, s.len(), i);
    let digits = stripped(s);
    let at = choose|k: int| 0 <= k < digits.len() && digits[k] == s[i];
    assert(hex_value(digits[at]) is None);
}

/// Reading a dump gives back the bytes that were dumped.
pub proof fn hex_decode_inverts_hex_text(bytes: Seq<u8>)
    ensures
        hex_decode(hex_text(bytes, bytes.len())) == Some(bytes),
{
    lemma_stripped_dump(bytes, bytes.len());
    lemma_digits_spell(bytes, bytes.len());
    assert(bytes.take(bytes.len() as int) =~= bytes);
}

} // verus!
