//! Hexadecimal digits and the numbers they spell.
use vstd::arithmetic::power::pow;
use vstd::prelude::*;

verus! {

/// Whether `c` is one of `0-9`, `a-f` or `A-F`.
pub open spec fn is_hex_digit(c: char) -> bool {
    ||| '0' <= c <= '9'
    ||| 'a' <= c <= 'f'
    ||| 'A' <= c <= 'F'
}

/// The value of a hexadecimal digit, from 0 to 15; 0 for any other character.
pub open spec fn hex_digit_value(c: char) -> nat {
    if '0' <= c <= '9' {
        (c as int - '0' as int) as nat
    } else if 'a' <= c <= 'f' {
        (c as int - 'a' as int + 10) as nat
    } else if 'A' <= c <= 'F' {
        (c as int - 'A' as int + 10) as nat
    } else {
        0
    }
}

/// The value of `c` as a hexadecimal digit, if it is one.
pub fn hex_digit(c: char) -> (nibble: Option<u8>)
    ensures
        nibble is Some <==> is_hex_digit(c),
        nibble is Some ==> nibble.unwrap() == hex_digit_value(c),
        nibble is Some ==> nibble.unwrap() < 16,
{
    if '0' <= c && c <= '9' {
        Some((c as u32 - '0' as u32) as u8)
    } else if 'a' <= c && c <= 'f' {
        Some((c as u32 - 'a' as u32 + 10) as u8)
    } else if 'A' <= c && c <= 'F' {
        Some((c as u32 - 'A' as u32 + 10) as u8)
    } else {
        None
    }
}

/// The hexadecimal digits of `s`, in the order in which they stand in it.
pub open spec fn hex_digits(s: Seq<char>) -> Seq<char> {
    s.filter(|c: char| is_hex_digit(c))
}

/// The number that `digits` spell in base 16, most significant digit first.
pub open spec fn hex_number(digits: Seq<char>) -> nat
    decreases digits.len(),
{
    if digits.len() == 0 {
        0
    } else {
        16 * hex_number(digits.drop_last()) + hex_digit_value(digits.last())
    }
}

/// One more character lengthens the digits of `s` by itself if it is a digit,
/// and leaves them as they are if it is not.
pub proof fn lemma_hex_digits_push(s: Seq<char>, c: char)
    ensures
        hex_digits(s.push(c)) == if is_hex_digit(c) {
            hex_digits(s).push(c)
        } else {
            hex_digits(s)
        },
{
    s.lemma_filter_push(c, |c: char| is_hex_digit(c));
}

/// The digits of the first `n + 1` characters of `s`, from those of the first `n`.
pub proof fn lemma_hex_digits_step(s: Seq<char>, n: int)
    requires
        0 <= n < s.len(),
    ensures
        hex_digits(s.take(n + 1)) == if is_hex_digit(s[n]) {
            hex_digits(s.take(n)).push(s[n])
        } else {
            hex_digits(s.take(n))
        },
{
    assert(s.take(n + 1) =~= s.take(n).push(s[n]));
    lemma_hex_digits_push(s.take(n), s[n]);
}

/// The digits of each prefix of `s`, from those of the prefix one shorter.
pub proof fn lemma_hex_digits_by_prefix(s: Seq<char>)
    ensures
        hex_digits(s.take(0)) == Seq::<char>::empty(),
        hex_digits(s.take(s.len() as int)) == hex_digits(s),
        forall|n: int|
            0 < n <= s.len() ==> #[trigger] hex_digits(s.take(n)) == if is_hex_digit(s[n - 1]) {
                hex_digits(s.take(n - 1)).push(s[n - 1])
            } else {
                hex_digits(s.take(n - 1))
            },
{
    reveal(Seq::filter);
    assert(s.take(0) =~= Seq::<char>::empty());
    assert(s.take(s.len() as int) =~= s);
    assert forall|n: int| 0 < n <= s.len() implies #[trigger] hex_digits(s.take(n)) == if is_hex_digit(
        s[n - 1],
    ) {
        hex_digits(s.take(n - 1)).push(s[n - 1])
    } else {
        hex_digits(s.take(n - 1))
    } by {
        lemma_hex_digits_step(s, n - 1);
    }
}

/// A prefix of `s` holds no more digits than `s` itself.
pub proof fn lemma_hex_digits_prefix(s: Seq<char>, n: int)
    requires
        0 <= n <= s.len(),
    ensures
        hex_digits(s.take(n)).len() <= hex_digits(s).len(),
{
    s.lemma_filter_take_len(|c: char| is_hex_digit(c), n);
}

/// One more digit shifts the number by one hexadecimal place.
pub proof fn lemma_hex_number_push(digits: Seq<char>, c: char)
    ensures
        hex_number(digits.push(c)) == 16 * hex_number(digits) + hex_digit_value(c),
{
    assert(digits.push(c).drop_last() =~= digits);
}

/// The number that the digits of each prefix of `s` spell, from that of the
/// prefix one shorter.
pub proof fn lemma_hex_number_by_prefix(s: Seq<char>)
    ensures
        hex_number(hex_digits(s.take(0))) == 0,
        hex_number(hex_digits(s.take(s.len() as int))) == hex_number(hex_digits(s)),
        forall|n: int|
            0 < n <= s.len() ==> #[trigger] hex_number(hex_digits(s.take(n))) == if is_hex_digit(
                s[n - 1],
            ) {
                16 * hex_number(hex_digits(s.take(n - 1))) + hex_digit_value(s[n - 1])
            } else {
                hex_number(hex_digits(s.take(n - 1)))
            },
{
    lemma_hex_digits_by_prefix(s);
    assert forall|n: int| 0 < n <= s.len() implies #[trigger] hex_number(hex_digits(s.take(n)))
        == if is_hex_digit(s[n - 1]) {
        16 * hex_number(hex_digits(s.take(n - 1))) + hex_digit_value(s[n - 1])
    } else {
        hex_number(hex_digits(s.take(n - 1)))
    } by {
        lemma_hex_number_push(hex_digits(s.take(n - 1)), s[n - 1]);
    }
}

/// A number of `n` hexadecimal digits is below `16^n`.
pub proof fn lemma_hex_number_bound(digits: Seq<char>)
    ensures
        hex_number(digits) < pow(16, digits.len()),
    decreases digits.len(),
{
    reveal(pow);
    if digits.len() > 0 {
        lemma_hex_number_bound(digits.drop_last());
    }
}

} // verus!
