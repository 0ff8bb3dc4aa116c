use wol::eui48::normalize_separator;
use wol::hex::hex_digit;
use wol::{create_magic_packet, parse_eui48, ParseError};

#[test]
fn hex_digit_gives_the_value_of_each_digit() {
    assert_eq!(hex_digit('0'), Some(0));
    assert_eq!(hex_digit('7'), Some(7));
    assert_eq!(hex_digit('9'), Some(9));
    assert_eq!(hex_digit('a'), Some(10));
    assert_eq!(hex_digit('f'), Some(15));
    assert_eq!(hex_digit('A'), Some(10));
    assert_eq!(hex_digit('F'), Some(15));
}

#[test]
fn hex_digit_refuses_every_other_character() {
    for c in ['g', 'G', '-', ':', ' ', '/', '@', '`', 'x', '\u{ff11}', '\u{e9}'] {
        assert_eq!(hex_digit(c), None);
    }
}

#[test]
fn hex_digit_agrees_with_the_standard_library() {
    for code in 0u32..0x300 {
        let c = char::from_u32(code).unwrap();
        assert_eq!(hex_digit(c).is_some(), c.is_ascii_hexdigit());
        assert_eq!(hex_digit(c).map(u32::from), c.to_digit(16));
    }
}

#[test]
fn normalize_separator_rewrites_only_the_colon() {
    assert_eq!(normalize_separator(':'), '-');
    assert_eq!(normalize_separator('-'), '-');
    assert_eq!(normalize_separator('a'), 'a');
    assert_eq!(normalize_separator(';'), ';');
}

#[test]
fn parses_hyphens() {
    assert_eq!(parse_eui48("01-23-45-67-89-ab"), Ok(0x0123_4567_89ab));
}

#[test]
fn parses_colons() {
    assert_eq!(parse_eui48("01:23:45:67:89:ab"), Ok(0x0123_4567_89ab));
}

#[test]
fn parses_either_case() {
    assert_eq!(parse_eui48("AB-CD-EF-ab-cd-ef"), Ok(0xabcd_efab_cdef));
    assert_eq!(parse_eui48("aB-Cd-eF-Ab-cD-Ef"), Ok(0xabcd_efab_cdef));
}

#[test]
fn parses_the_least_and_the_greatest_address() {
    assert_eq!(parse_eui48("00-00-00-00-00-00"), Ok(0));
    assert_eq!(parse_eui48("FF:FF:FF:FF:FF:FF"), Ok(0xffff_ffff_ffff));
    assert_eq!(parse_eui48("00-00-00-00-00-01"), Ok(1));
    assert_eq!(parse_eui48("10-00-00-00-00-00"), Ok(0x1000_0000_0000));
}

#[test]
fn each_digit_has_its_place() {
    assert_eq!(parse_eui48("12-34-56-78-9A-BC"), Ok(0x1234_5678_9abc));
    assert_eq!(parse_eui48("00-00-00-00-0f-00"), Ok(0x0f00));
    assert_eq!(parse_eui48("0f-00-00-00-00-00"), Ok(0x0f00_0000_0000));
}

#[test]
fn mixed_separators_parse_as_the_all_hyphen_form() {
    assert_eq!(parse_eui48("AA-aa:aa-aa-aa-aa"), parse_eui48("AA-aa-aa-aa-aa-aa"));
    assert_eq!(parse_eui48("AA-aa:aa-aa-aa-aa"), Ok(0xaaaa_aaaa_aaaa));
    assert_eq!(parse_eui48("01:23-45:67-89:ab"), parse_eui48("01-23-45-67-89-ab"));
}

#[test]
fn rejects_any_other_length() {
    assert_eq!(parse_eui48(""), Err(ParseError::InvalidLength));
    assert_eq!(parse_eui48("hello"), Err(ParseError::InvalidLength));
    assert_eq!(parse_eui48("ab-cd"), Err(ParseError::InvalidLength));
    assert_eq!(parse_eui48("01-23-45-67-89-a"), Err(ParseError::InvalidLength));
    assert_eq!(parse_eui48("01-23-45-67-89-abc"), Err(ParseError::InvalidLength));
    assert_eq!(parse_eui48("ab-cd-ab-cd-ab-cd-ab-cd-ab"), Err(ParseError::InvalidLength));
    assert_eq!(parse_eui48("0123456789ab"), Err(ParseError::InvalidLength));
}

#[test]
fn rejects_any_other_digit_count() {
    assert_eq!(parse_eui48("he-js-an-cc-dd-ee"), Err(ParseError::InvalidLength));
    assert_eq!(parse_eui48("01-23-45-67-89-ag"), Err(ParseError::InvalidLength));
    assert_eq!(parse_eui48("0123456789abcdef0"), Err(ParseError::InvalidLength));
    assert_eq!(parse_eui48("01-23-45-67-89ab0"), Err(ParseError::InvalidLength));
    assert_eq!(parse_eui48("-----------------"), Err(ParseError::InvalidLength));
}

#[test]
fn digit_count_is_checked_before_the_separators() {
    assert_eq!(parse_eui48("01x23-45-67-89-ag"), Err(ParseError::InvalidLength));
}

#[test]
fn surrounding_space_is_not_trimmed() {
    assert_eq!(parse_eui48(" 01-23-45-67-89-ab"), Err(ParseError::InvalidLength));
    assert_eq!(parse_eui48("01-23-45-67-89-ab "), Err(ParseError::InvalidLength));
    assert_eq!(parse_eui48(" 1-23-45-67-89-ab"), Err(ParseError::InvalidLength));
}

#[test]
fn length_is_counted_in_characters() {
    assert_eq!("01\u{e9}23-45-67-89ab".len(), 17);
    assert_eq!("01\u{e9}23-45-67-89ab".chars().count(), 16);
    assert_eq!(parse_eui48("01\u{e9}23-45-67-89ab"), Err(ParseError::InvalidLength));
    assert_eq!("01\u{e9}23-45-67-89-ab".chars().count(), 17);
    assert_eq!(parse_eui48("01\u{e9}23-45-67-89-ab"), Err(ParseError::ExpectedHyphen(2)));
    assert_eq!(parse_eui48("01-23-45-67-89-a\u{e9}"), Err(ParseError::InvalidLength));
}

#[test]
fn reports_the_first_missing_separator() {
    assert_eq!(parse_eui48("-----abababababab"), Err(ParseError::ExpectedHyphen(5)));
    assert_eq!(parse_eui48("01_23-45-67-89-ab"), Err(ParseError::ExpectedHyphen(2)));
    assert_eq!(parse_eui48("01_23_45_67_89_ab"), Err(ParseError::ExpectedHyphen(2)));
    assert_eq!(parse_eui48("01-23-45.67-89.ab"), Err(ParseError::ExpectedHyphen(8)));
    assert_eq!(parse_eui48("01:23:45:67:89 ab"), Err(ParseError::ExpectedHyphen(14)));
    assert_eq!(parse_eui48("0123-45-67-89-ab-"), Err(ParseError::ExpectedHyphen(2)));
    assert_eq!(parse_eui48("01-2345-67-89-ab-"), Err(ParseError::ExpectedHyphen(5)));
}

#[test]
fn create_magic_packet_gives_the_parsers_errors() {
    assert_eq!(create_magic_packet("hello").unwrap_err(), ParseError::InvalidLength);
    assert_eq!(create_magic_packet("he-js-an-cc-dd-ee").unwrap_err(), ParseError::InvalidLength);
    assert_eq!(create_magic_packet("ab-cd").unwrap_err(), ParseError::InvalidLength);
    assert_eq!(
        create_magic_packet("ab-cd-ab-cd-ab-cd-ab-cd-ab").unwrap_err(),
        ParseError::InvalidLength
    );
    assert_eq!(
        create_magic_packet("-----abababababab").unwrap_err(),
        ParseError::ExpectedHyphen(5)
    );
}
