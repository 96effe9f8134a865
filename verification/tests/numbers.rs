use shopping_list_parser::chars::chars_of;
use shopping_list_parser::number::{
    parse_index, parse_quantity, push_decimal, read_unsigned, NumberError,
};

#[test]
fn an_index_is_digits_with_an_optional_plus_sign() {
    assert_eq!(parse_index("0"), Ok(0));
    assert_eq!(parse_index("123"), Ok(123));
    assert_eq!(parse_index("+5"), Ok(5));
    assert_eq!(parse_index("007"), Ok(7));
    assert_eq!(parse_index(""), Err(NumberError::Empty));
    assert_eq!(parse_index("+"), Err(NumberError::InvalidDigit));
    assert_eq!(parse_index("-"), Err(NumberError::InvalidDigit));
    assert_eq!(parse_index("-5"), Err(NumberError::InvalidDigit));
    assert_eq!(parse_index("++5"), Err(NumberError::InvalidDigit));
    assert_eq!(parse_index("12a"), Err(NumberError::InvalidDigit));
    assert_eq!(parse_index(" 12"), Err(NumberError::InvalidDigit));
    assert_eq!(parse_index("12 "), Err(NumberError::InvalidDigit));
    assert_eq!(parse_index("1_000"), Err(NumberError::InvalidDigit));
    assert_eq!(parse_index("\u{0661}"), Err(NumberError::InvalidDigit));
}

#[test]
fn an_index_agrees_with_the_standard_library() {
    for text in [
        "", "+", "-", "0", "+0", "-0", "9", "10", "+10", "0010", "1a", "a1", "18446744073709551615",
        "18446744073709551616", "99999999999999999999999", "99999999999999999999999x",
        "x99999999999999999999999", "+18446744073709551615", "1 ", " 1", "1+", "٣",
    ] {
        let expected = text.parse::<usize>().map_err(|e| e.to_string());
        let found = parse_index(text).map_err(|e| e.message());
        assert_eq!(found, expected, "{:?}", text);
    }
}

#[test]
fn a_quantity_agrees_with_the_standard_library() {
    for text in [
        "", " ", "+", "0", " 7 ", "\t42\n", "\u{3000}5\u{00A0}", "4294967295", "4294967296",
        " 4294967295 ", "42949672950", "1 2", "+3", "-3", "3.5", "99999999999x", "१",
    ] {
        let expected = text.trim().parse::<u32>().map_err(|e| e.to_string());
        let found = parse_quantity(text).map_err(|e| e.message());
        assert_eq!(found, expected, "{:?}", text);
    }
}

#[test]
fn an_index_at_the_limit() {
    assert_eq!(parse_index(&usize::MAX.to_string()), Ok(usize::MAX));
    let beyond = format!("{}0", usize::MAX);
    assert_eq!(parse_index(&beyond), Err(NumberError::PosOverflow));
    assert_eq!(parse_index("18446744073709551616"), Err(NumberError::PosOverflow));
}

#[test]
fn a_quantity_sets_whitespace_aside() {
    assert_eq!(parse_quantity("500"), Ok(500));
    assert_eq!(parse_quantity("  500\t\n"), Ok(500));
    assert_eq!(parse_quantity("\u{00A0}12\u{2003}"), Ok(12));
    assert_eq!(parse_quantity("   "), Err(NumberError::Empty));
    assert_eq!(parse_quantity(""), Err(NumberError::Empty));
    assert_eq!(parse_quantity("5 0"), Err(NumberError::InvalidDigit));
    assert_eq!(parse_quantity("4294967295"), Ok(u32::MAX));
    assert_eq!(parse_quantity("4294967296"), Err(NumberError::PosOverflow));
}

#[test]
fn too_many_digits_are_reported_before_a_wrong_character() {
    assert_eq!(parse_quantity("99999999999x"), Err(NumberError::PosOverflow));
    assert_eq!(parse_quantity("x99999999999"), Err(NumberError::InvalidDigit));
    assert_eq!(parse_quantity("4294967295x"), Err(NumberError::InvalidDigit));
    assert_eq!(parse_quantity("429496729x6"), Err(NumberError::InvalidDigit));
}

#[test]
fn a_number_up_to_a_limit_of_ones_own() {
    let chars = chars_of("ab250cd");
    assert_eq!(read_unsigned(&chars, 2, 5, 255), Ok(250));
    assert_eq!(read_unsigned(&chars, 2, 5, 249), Err(NumberError::PosOverflow));
    assert_eq!(read_unsigned(&chars, 2, 5, 250), Ok(250));
    assert_eq!(read_unsigned(&chars, 2, 4, 25), Ok(25));
    assert_eq!(read_unsigned(&chars, 2, 4, 3), Err(NumberError::PosOverflow));
    assert_eq!(read_unsigned(&chars, 4, 5, 0), Ok(0));
    assert_eq!(read_unsigned(&chars, 3, 4, 0), Err(NumberError::PosOverflow));
    assert_eq!(read_unsigned(&chars, 2, 2, 9), Err(NumberError::Empty));
    assert_eq!(read_unsigned(&chars, 1, 5, 999), Err(NumberError::InvalidDigit));
    assert_eq!(read_unsigned(&chars, 2, 6, 999), Err(NumberError::InvalidDigit));
}

#[test]
fn numbers_written_out() {
    for n in [0u64, 1, 9, 10, 11, 99, 100, 101, 1203, 4294967295, 4294967296, u64::MAX] {
        let mut text = String::from("n=");
        push_decimal(&mut text, n);
        assert_eq!(text, format!("n={}", n));
    }
}

#[test]
fn number_errors_in_words() {
    assert_eq!(NumberError::Empty.message(), "cannot parse integer from empty string");
    assert_eq!(NumberError::InvalidDigit.message(), "invalid digit found in string");
    assert_eq!(NumberError::PosOverflow.message(), "number too large to fit in target type");
}
