use lib::err::ErrCode;
use lib::numerals::{from_english, to_roman};

#[test]
fn roman_zero_is_a_lone_overbar() {
    assert_eq!(to_roman(0), "_\n\n");
}

#[test]
fn roman_small_numbers() {
    assert_eq!(to_roman(1), " \nI\n");
    assert_eq!(to_roman(4), "  \nIV\n");
    assert_eq!(to_roman(9), "  \nIX\n");
    assert_eq!(to_roman(14), "   \nXIV\n");
    assert_eq!(to_roman(1999), "       \nMCMXCIX\n");
    assert_eq!(to_roman(3999), "         \nMMMCMXCIX\n");
}

#[test]
fn roman_overbars_for_thousands() {
    assert_eq!(to_roman(4000), "__\nIV\n");
    assert_eq!(to_roman(65535), "___     \nLXVDXXXV\n");
}

#[test]
fn roman_largest_number() {
    assert_eq!(
        to_roman(4294967295),
        "__      _______     \nivccxcivCMLXVIICCXCV\n"
    );
}

#[test]
fn english_digits_make_a_number() {
    assert_eq!(from_english("ONE TWO THREE", 1).unwrap(), 123);
    assert_eq!(from_english("OH SEVEN", 1).unwrap(), 7);
    assert_eq!(from_english("NINER ZERO", 1).unwrap(), 90);
    assert_eq!(from_english("  FOUR \t FIVE\n", 1).unwrap(), 45);
}

#[test]
fn english_empty_is_zero() {
    assert_eq!(from_english("", 3).unwrap(), 0);
    assert_eq!(from_english("\n", 3).unwrap(), 0);
}

#[test]
fn english_unknown_word_is_ie579() {
    let e = from_english("ONE FOO TWO", 7).unwrap_err();
    assert_eq!(e.code, ErrCode::IE579);
    assert_eq!(e.word, Some("FOO".to_string()));
    assert_eq!(e.line, 7);
    let e = from_english("one", 2).unwrap_err();
    assert_eq!(e.code, ErrCode::IE579);
    assert_eq!(e.word, Some("one".to_string()));
}

#[test]
fn english_largest_number_fits() {
    assert_eq!(
        from_english("FOUR TWO NINE FOUR NINE SIX SEVEN TWO NINE FIVE", 1).unwrap(),
        4294967295
    );
}

#[test]
fn english_too_large_is_ie533() {
    let e = from_english("FOUR TWO NINE FOUR NINE SIX SEVEN TWO NINE SIX", 5).unwrap_err();
    assert_eq!(e.code, ErrCode::IE533);
    assert_eq!(e.word, None);
    assert_eq!(e.line, 5);
}

#[test]
fn english_long_numbers() {
    let zeros = "ZERO ".repeat(30);
    assert_eq!(from_english(&format!("{}SEVEN", zeros), 1).unwrap(), 7);
    let e = from_english(&"ONE ".repeat(21), 4).unwrap_err();
    assert_eq!(e.code, ErrCode::IE533);
    let e = from_english(&"NINE ".repeat(25), 4).unwrap_err();
    assert_eq!(e.code, ErrCode::IE533);
}
