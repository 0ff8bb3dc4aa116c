//! Textual EUI-48 hardware addresses.
//!
//! An address is written as six pairs of hexadecimal digits, the pairs
//! separated by hyphens or by colons: `XX-XX-XX-XX-XX-XX`.
use crate::hex::{
    hex_digit, hex_digit_value, hex_digits, hex_number, is_hex_digit, lemma_hex_digits_by_prefix,
    lemma_hex_digits_prefix, lemma_hex_digits_push, lemma_hex_number_bound,
    lemma_hex_digits_step, lemma_hex_number_by_prefix, lemma_hex_number_push,
};
use vstd::arithmetic::power::{lemma_pow_increases, pow};
use vstd::prelude::*;

verus! {

/// A 48-bit hardware address, held in the low 48 bits.
pub type Eui48 = u64;

/// The number of characters of a written address.
pub const EUI48_TEXT_LEN: usize = 17;

/// The number of hexadecimal digits of a written address.
pub const EUI48_DIGITS: usize = 12;

/// Why a text is not an EUI-48 address.
#[derive(Debug, Clone, Copy, PartialEq, Eq)]
pub enum ParseError {
    /// The text is not 17 characters long, or does not hold 12 hexadecimal digits.
    InvalidLength,
    /// The character at this position, counted from 0, should be a separator.
    ExpectedHyphen(usize),
}

/// Whether `c` is one of the two separators.
pub open spec fn is_separator(c: char) -> bool {
    c == '-' || c == ':'
}

/// `c` with the colon rewritten to the hyphen.
pub open spec fn hyphenated(c: char) -> char {
    if c == ':' {
        '-'
    } else {
        c
    }
}

/// `text` with every colon rewritten to a hyphen.
pub open spec fn with_hyphens(text: Seq<char>) -> Seq<char> {
    text.map_values(|c: char| hyphenated(c))
}

/// Whether a separator stands at position `i` of a written address.
pub open spec fn is_separator_position(i: int) -> bool {
    i % 3 == 2
}

/// Whether `text` is an address as it is written: 17 characters, a separator
/// at each separator position and a hexadecimal digit at every other.
pub open spec fn is_eui48_text(text: Seq<char>) -> bool {
    &&& text.len() == EUI48_TEXT_LEN
    &&& forall|i: int|
        0 <= i < text.len() ==> if is_separator_position(i) {
            is_separator(#[trigger] text[i])
        } else {
            is_hex_digit(text[i])
        }
}

/// Whether `at` is the first separator position of `text` at which no
/// separator stands.
pub open spec fn is_first_missing_separator(text: Seq<char>, at: int) -> bool {
    &&& 0 <= at < text.len()
    &&& is_separator_position(at)
    &&& !is_separator(text[at])
    &&& forall|q: int|
        0 <= q < at && is_separator_position(q) ==> is_separator(#[trigger] text[q])
}

/// The first separator position of `s`, at or after `from`, that holds no hyphen.
pub open spec fn first_missing_hyphen(s: Seq<char>, from: int) -> Option<int>
    decreases s.len() - from,
{
    if from < 0 || from >= s.len() {
        None
    } else if is_separator_position(from) && s[from] != '-' {
        Some(from)
    } else {
        first_missing_hyphen(s, from + 1)
    }
}

/// What parsing `text` gives: the checks are made in this order, on the text
/// with its colons rewritten to hyphens.
pub open spec fn parse_eui48_spec(text: Seq<char>) -> Result<Eui48, ParseError> {
    let s = with_hyphens(text);
    if s.len() != EUI48_TEXT_LEN || hex_digits(s).len() != EUI48_DIGITS {
        Err(ParseError::InvalidLength)
    } else {
        match first_missing_hyphen(s, 0) {
            Some(at) => Err(ParseError::ExpectedHyphen(at as usize)),
            None => Ok(hex_number(hex_digits(s)) as Eui48),
        }
    }
}

/// The colon as a hyphen, any other character as it is.
pub fn normalize_separator(c: char) -> (r: char)
    ensures
        r == hyphenated(c),
{
    if c == ':' {
        '-'
    } else {
        c
    }
}

/// Parses a written EUI-48 address, its pairs of digits separated by hyphens
/// or by colons, into its 48-bit value.
///
/// Exactly the written addresses parse, each to the number that its twelve
/// digits spell. Any other text is rejected: for its length if it is not 17
/// characters long or does not hold 12 hexadecimal digits, and else with the
/// first separator position at which no separator stands.
#[verifier::loop_isolation(false)]
pub fn parse_eui48(input: &str) -> (r: Result<Eui48, ParseError>)
    ensures
        r == parse_eui48_spec(input@),
        r is Ok <==> is_eui48_text(input@),
        r matches Ok(eui) ==> eui == hex_number(hex_digits(input@)) && eui < 0x1_0000_0000_0000,
        input@.len() != EUI48_TEXT_LEN || hex_digits(input@).len() != EUI48_DIGITS ==> r matches Err(
            ParseError::InvalidLength,
        ),
        forall|at: int|
            input@.len() == EUI48_TEXT_LEN && hex_digits(input@).len() == EUI48_DIGITS
                && #[trigger] is_first_missing_separator(input@, at) ==> (r matches Err(
                ParseError::ExpectedHyphen(p),
            ) && p == at),
{
    let ghost s = with_hyphens(input@);
    proof {
        lemma_accepts_written_addresses(input@);
        lemma_with_hyphens_keeps_digits(input@);
        assert forall|at: int|
            input@.len() == EUI48_TEXT_LEN && hex_digits(input@).len() == EUI48_DIGITS
                && #[trigger] is_first_missing_separator(input@, at) implies (parse_eui48_spec(
            input@,
        ) matches Err(ParseError::ExpectedHyphen(p)) && p == at) by {
            lemma_reports_first_missing_separator(input@, at);
        }
    }
    if input.unicode_len() != EUI48_TEXT_LEN {
        return Err(ParseError::InvalidLength);
    }
    let mut digits: usize = 0;
    for c in it: input.chars()
        invariant
            it.seq() == input@,
            digits == hex_digits(s.take(it.index())).len(),
            digits <= it.index(),
    {
        proof {
            lemma_hex_digits_step(s, it.index());
        }
        if hex_digit(normalize_separator(c)).is_some() {
            digits += 1;
        }
    }
    assert(s.take(s.len() as int) =~= s);
    if digits != EUI48_DIGITS {
        return Err(ParseError::InvalidLength);
    }
    let mut index: usize = 0;
    for c in it: input.chars()
        invariant
            it.seq() == input@,
            index == it.index(),
            forall|q: int| 0 <= q < index && is_separator_position(q) ==> s[q] == '-',
    {
        if index % 3 == 2 && normalize_separator(c) != '-' {
            proof {
                lemma_first_missing_hyphen_some(s, 0, index as int);
            }
            return Err(ParseError::ExpectedHyphen(index));
        }
        index += 1;
    }
    proof {
        lemma_first_missing_hyphen_none(s, 0);
    }
    let mut eui: Eui48 = 0;
    for c in it: input.chars()
        invariant
            it.seq() == input@,
            eui == hex_number(hex_digits(s.take(it.index()))),
    {
        proof {
            lemma_hex_digits_step(s, it.index());
        }
        if let Some(nibble) = hex_digit(normalize_separator(c)) {
            let low: u64 = nibble as u64;
            proof {
                let before = hex_digits(s.take(it.index()));
                lemma_hex_digits_prefix(s, it.index() + 1);
                lemma_hex_number_push(before, s[it.index()]);
                lemma_hex_number_bound(before);
                lemma_pow_increases(16, before.len(), 11);
                lemma_pow16_values();
                assert(eui < 0x1000_0000_0000u64 && low < 16 ==> (eui << 4 | (low & 0xF)) == eui * 16
                    + low) by (bit_vector);
            }
            eui = eui << 4 | (low & 0xF);
        }
    }
    Ok(eui)
}

/// The texts that parse are exactly the written addresses, and what they
/// parse to is the number that their twelve digits spell, below `2^48`.
pub proof fn lemma_accepts_written_addresses(text: Seq<char>)
    ensures
        parse_eui48_spec(text) is Ok <==> is_eui48_text(text),
        parse_eui48_spec(text) matches Ok(eui) ==> {
            &&& eui == hex_number(hex_digits(text))
            &&& eui < 0x1_0000_0000_0000
        },
{
    let s = with_hyphens(text);
    lemma_with_hyphens_keeps_digits(text);
    lemma_first_missing_hyphen_is_first(s, 0);
    lemma_hex_digits_by_prefix(s);
    lemma_hex_number_bound(hex_digits(s));
    lemma_pow16_values();
    if s.len() == EUI48_TEXT_LEN {
        assert(hex_digits(s.take(17)).len() == hex_digits(s).len());
        if is_eui48_text(text) {
            assert forall|i: int| 0 <= i < 17 implies is_hex_digit(s[i])
                == !is_separator_position(i) by {
                assert(is_separator_position(i) ==> is_separator(text[i]));
            }
            assert(hex_digits(s).len() == 12);
            assert forall|q: int| 0 <= q < s.len() && is_separator_position(q) implies s[q]
                == '-' by {
                assert(is_separator(text[q]));
            }
        }
        if parse_eui48_spec(text) is Ok {
            assert(hex_digits(s).len() == 12);
            assert(s[2] == '-' && s[5] == '-' && s[8] == '-' && s[11] == '-' && s[14] == '-');
            assert forall|i: int| 0 <= i < text.len() implies if is_separator_position(i) {
                is_separator(#[trigger] text[i])
            } else {
                is_hex_digit(text[i])
            } by {
                assert(s[i] == hyphenated(text[i]));
                assert(is_separator_position(i) ==> s[i] == '-');
                assert(!is_separator_position(i) ==> is_hex_digit(s[i]));
            }
        }
    }
}

/// A text that is not 17 characters long is rejected for its length.
pub proof fn lemma_rejects_wrong_length(text: Seq<char>)
    requires
        text.len() != EUI48_TEXT_LEN,
    ensures
        parse_eui48_spec(text) matches Err(ParseError::InvalidLength),
{
}

/// A text that holds fewer or more than 12 hexadecimal digits is rejected for
/// its length, whatever its length is.
pub proof fn lemma_rejects_wrong_digit_count(text: Seq<char>)
    requires
        hex_digits(text).len() != EUI48_DIGITS,
    ensures
        parse_eui48_spec(text) matches Err(ParseError::InvalidLength),
{
    lemma_with_hyphens_keeps_digits(text);
}

/// A text of the right length and digit count, with something else than a
/// separator at a separator position, is rejected with the first such position.
pub proof fn lemma_reports_first_missing_separator(text: Seq<char>, at: int)
    requires
        text.len() == EUI48_TEXT_LEN,
        hex_digits(text).len() == EUI48_DIGITS,
        is_first_missing_separator(text, at),
    ensures
        parse_eui48_spec(text) matches Err(ParseError::ExpectedHyphen(p)) && p == at,
{
    let s = with_hyphens(text);
    lemma_with_hyphens_keeps_digits(text);
    assert forall|q: int| 0 <= q < at && is_separator_position(q) implies s[q] == '-' by {
        assert(is_separator(text[q]));
    }
    lemma_first_missing_hyphen_some(s, 0, at);
}

/// The choice between colon and hyphen, made anew at each separator, has no
/// part in the result: a text parses as its all-hyphen form does.
pub proof fn lemma_separators_interchangeable(text: Seq<char>)
    ensures
        parse_eui48_spec(text) == parse_eui48_spec(with_hyphens(text)),
{
    assert(with_hyphens(with_hyphens(text)) =~= with_hyphens(text));
}

/// The number that a written address parses to, digit by digit: the digit
/// at position `k + k / 2` of the text has the weight `16^(11 - k)`.
pub proof fn lemma_written_address_number(text: Seq<char>)
    requires
        is_eui48_text(text),
    ensures
        parse_eui48_spec(text) matches Ok(eui) && eui == hex_digit_value(text[0])
            * 0x1000_0000_0000 + hex_digit_value(text[1]) * 0x100_0000_0000 + hex_digit_value(
            text[3],
        ) * 0x10_0000_0000 + hex_digit_value(text[4]) * 0x1_0000_0000 + hex_digit_value(text[6])
            * 0x1000_0000 + hex_digit_value(text[7]) * 0x100_0000 + hex_digit_value(text[9])
            * 0x10_0000 + hex_digit_value(text[10]) * 0x1_0000 + hex_digit_value(text[12])
            * 0x1000 + hex_digit_value(text[13]) * 0x100 + hex_digit_value(text[15]) * 0x10
            + hex_digit_value(text[16]),
{
    lemma_accepts_written_addresses(text);
    let n = |i: int| hex_number(hex_digits(text.take(i)));
    assert(n(0) == 0 && n(17) == hex_number(hex_digits(text)) && forall|i: int|
        0 < i <= 17 ==> #[trigger] n(i) == if is_separator_position(i - 1) {
            n(i - 1)
        } else {
            16 * n(i - 1) + hex_digit_value(text[i - 1])
        }) by {
        lemma_hex_number_by_prefix(text);
        assert forall|i: int| 0 <= i < 17 implies is_hex_digit(text[i])
            == !is_separator_position(i) by {
            assert(is_separator_position(i) ==> is_separator(text[i]));
        }
    }
    assert(n(3) == 16 * n(1) + hex_digit_value(text[1]));
    assert(n(6) == 16 * n(4) + hex_digit_value(text[4]));
    assert(n(9) == 16 * n(7) + hex_digit_value(text[7]));
    assert(n(12) == 16 * n(10) + hex_digit_value(text[10]));
    assert(n(15) == 16 * n(13) + hex_digit_value(text[13]));
    assert(n(17) == 16 * n(16) + hex_digit_value(text[16]));
}

/// Digit `k` of a written address, counted from 0, stands at position
/// `k + k / 2` of the text and has the weight `16^(11 - k)` in the address:
/// it fills the four bits from bit `44 - 4k` up.
pub proof fn lemma_digit_places(text: Seq<char>, k: int)
    requires
        is_eui48_text(text),
        0 <= k < 12,
    ensures
        parse_eui48_spec(text) matches Ok(eui) && (eui as int / pow(16, (11 - k) as nat)) % 16
            == hex_digit_value(text[k + k / 2]),
{
    lemma_written_address_number(text);
    lemma_pow16_values();
    lemma_nibbles(
        parse_eui48_spec(text).unwrap(),
        hex_digit_value(text[0]) as u64,
        hex_digit_value(text[1]) as u64,
        hex_digit_value(text[3]) as u64,
        hex_digit_value(text[4]) as u64,
        hex_digit_value(text[6]) as u64,
        hex_digit_value(text[7]) as u64,
        hex_digit_value(text[9]) as u64,
        hex_digit_value(text[10]) as u64,
        hex_digit_value(text[12]) as u64,
        hex_digit_value(text[13]) as u64,
        hex_digit_value(text[15]) as u64,
        hex_digit_value(text[16]) as u64,
    );
}

/// Rewriting the colons neither adds a hexadecimal digit nor takes one away.
pub proof fn lemma_with_hyphens_keeps_digits(text: Seq<char>)
    ensures
        hex_digits(with_hyphens(text)) == hex_digits(text),
    decreases text.len(),
{
    if text.len() == 0 {
        assert(with_hyphens(text) =~= text);
    } else {
        let front = text.drop_last();
        let c = text.last();
        lemma_with_hyphens_keeps_digits(front);
        assert(text =~= front.push(c));
        assert(with_hyphens(text) =~= with_hyphens(front).push(hyphenated(c)));
        lemma_hex_digits_push(front, c);
        lemma_hex_digits_push(with_hyphens(front), hyphenated(c));
    }
}

/// A scan that meets only hyphens before `at`, and none at `at`, stops at `at`.
pub proof fn lemma_first_missing_hyphen_some(s: Seq<char>, from: int, at: int)
    requires
        0 <= from <= at < s.len(),
        is_separator_position(at),
        s[at] != '-',
        forall|q: int| from <= q < at && is_separator_position(q) ==> s[q] == '-',
    ensures
        first_missing_hyphen(s, from) == Some(at),
    decreases at - from,
{
    if from < at {
        lemma_first_missing_hyphen_some(s, from + 1, at);
    }
}

/// A scan that meets only hyphens finds nothing.
pub proof fn lemma_first_missing_hyphen_none(s: Seq<char>, from: int)
    requires
        0 <= from,
        forall|q: int| from <= q < s.len() && is_separator_position(q) ==> s[q] == '-',
    ensures
        first_missing_hyphen(s, from) is None,
    decreases s.len() - from,
{
    if from < s.len() {
        lemma_first_missing_hyphen_none(s, from + 1);
    }
}

/// What a scan reports is a separator position without a hyphen, the first
/// one at or after `from`; and it reports one if there is one.
pub proof fn lemma_first_missing_hyphen_is_first(s: Seq<char>, from: int)
    requires
        0 <= from,
    ensures
        match first_missing_hyphen(s, from) {
            Some(at) => {
                &&& from <= at < s.len()
                &&& is_separator_position(at)
                &&& s[at] != '-'
                &&& forall|q: int|
                    from <= q < at && is_separator_position(q) ==> #[trigger] s[q] == '-'
            },
            None => forall|q: int|
                from <= q < s.len() && is_separator_position(q) ==> #[trigger] s[q] == '-',
        },
    decreases s.len() - from,
{
    if from < s.len() {
        lemma_first_missing_hyphen_is_first(s, from + 1);
    }
}

/// The place of each of twelve hexadecimal digits in the number they spell.
proof fn lemma_nibbles(
    eui: u64,
    d0: u64,
    d1: u64,
    d2: u64,
    d3: u64,
    d4: u64,
    d5: u64,
    d6: u64,
    d7: u64,
    d8: u64,
    d9: u64,
    d10: u64,
    d11: u64,
)
    by (bit_vector)
    requires
        d0 < 16 && d1 < 16 && d2 < 16 && d3 < 16 && d4 < 16 && d5 < 16,
        d6 < 16 && d7 < 16 && d8 < 16 && d9 < 16 && d10 < 16 && d11 < 16,
        eui == d0 * 0x1000_0000_0000 + d1 * 0x100_0000_0000 + d2 * 0x10_0000_0000 + d3
            * 0x1_0000_0000 + d4 * 0x1000_0000 + d5 * 0x100_0000 + d6 * 0x10_0000 + d7 * 0x1_0000
            + d8 * 0x1000 + d9 * 0x100 + d10 * 0x10 + d11,
    ensures
        (eui / 0x1000_0000_0000) % 16 == d0,
        (eui / 0x100_0000_0000) % 16 == d1,
        (eui / 0x10_0000_0000) % 16 == d2,
        (eui / 0x1_0000_0000) % 16 == d3,
        (eui / 0x1000_0000) % 16 == d4,
        (eui / 0x100_0000) % 16 == d5,
        (eui / 0x10_0000) % 16 == d6,
        (eui / 0x1_0000) % 16 == d7,
        (eui / 0x1000) % 16 == d8,
        (eui / 0x100) % 16 == d9,
        (eui / 0x10) % 16 == d10,
        (eui / 0x1) % 16 == d11,
{
}

/// The powers of 16 by which the digits of an address are weighted.
proof fn lemma_pow16_values()
    ensures
        pow(16, 0) == 0x1,
        pow(16, 1) == 0x10,
        pow(16, 2) == 0x100,
        pow(16, 3) == 0x1000,
        pow(16, 4) == 0x1_0000,
        pow(16, 5) == 0x10_0000,
        pow(16, 6) == 0x100_0000,
        pow(16, 7) == 0x1000_0000,
        pow(16, 8) == 0x1_0000_0000,
        pow(16, 9) == 0x10_0000_0000,
        pow(16, 10) == 0x100_0000_0000,
        pow(16, 11) == 0x1000_0000_0000,
        pow(16, 12) == 0x1_0000_0000_0000,
{
    reveal_with_fuel(pow, 13);
}

} // verus!
