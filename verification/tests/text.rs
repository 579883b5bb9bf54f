use tsuitate_bot::numeral::below_zero;
use tsuitate_bot::text::{
    ahead, append_decimal, append_signed, before, behind, equal_but_case, find_char,
    numeral, parse_number, same_text, trim, white,
};

#[test]
fn numbers_are_written_and_read() {
    let mut out = String::new();
    append_decimal(&mut out, 0);
    append_decimal(&mut out, 120);
    append_signed(&mut out, -7);
    append_signed(&mut out, 7);
    assert_eq!(out, "0120-77");
    assert_eq!(parse_number("18446744073709551615"), Some(u64::MAX));
    assert_eq!(parse_number("18446744073709551616"), None);
    assert_eq!(parse_number("007"), Some(7));
    assert_eq!(parse_number("+7"), Some(7));
    for bad in ["", "-1", "1 ", "x"] {
        assert_eq!(parse_number(bad), None, "{bad}");
    }
}

#[test]
fn texts_are_compared() {
    assert!(same_text("歩", "歩"));
    assert!(!same_text("a", "A"));
    assert!(equal_but_case("X-Key", "x-kEY"));
    assert!(!equal_but_case("X-Key", "x-keys"));
    assert!(before("5i4h", "5i6h"));
    assert!(before("", "a"));
    assert!(!before("a", "a"));
    assert!(!before("b", "ab"));
}

#[test]
fn space_is_cut_off() {
    assert_eq!(trim(" \t a b\r\n"), "a b");
    assert_eq!(trim("\u{3000}"), "");
    assert!(white('\u{3000}') && !white('a'));
}

#[test]
fn fronts_and_backs_are_cut_off() {
    assert_eq!(behind("alpha@k2", "alpha@k"), Some("2"));
    assert_eq!(behind("alpha", "alpha@k"), None);
    assert_eq!(ahead("current@real", "@real"), Some("current"));
    assert_eq!(ahead("current", "@real"), None);
    assert_eq!(find_char("1l2l3", 'l'), Some(1));
    assert_eq!(find_char("123", 'l'), None);
}

#[test]
fn numerals_are_those_of_decimal_numbers() {
    for good in ["1", "1.5", ".5", "5.", "-2", "+3", "1e3", "1.5E-2"] {
        assert!(numeral(good), "{good}");
        assert!(good.parse::<f64>().is_ok(), "{good}");
    }
    for bad in ["", ".", "-", "x", "1e", "1 ", "--1", "1.2.3"] {
        assert!(!numeral(bad), "{bad}");
        assert!(bad.parse::<f64>().is_err(), "{bad}");
    }
    assert!(below_zero("-1") && below_zero("-0.5"));
    assert!(!below_zero("-0") && !below_zero("1") && !below_zero("0"));
}
