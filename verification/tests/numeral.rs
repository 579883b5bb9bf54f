use tsuitate_bot::numeral::{below_zero, is_zero, keep, parse_finite};

/// The least whole number that is rounded to an infinite one.
const TOO_LARGE: &str = "1797693134862315807937289714053034150799341327100378269361737789804449682927647509466490\
    1797758720709633028641669288791094655554785194040263065748867150582068190890200070838367\
    6273854845817711531764475730270069855571366959622842914819860834936475292719074168444365\
    510704342711559699508093042880177904174497792";

/// The digits of the greatest number that is rounded to zero.
const TOO_SMALL: &str = "2470328229206232720882843964341106861825299013071623822127928412503377536351043759326499\
    1818081799618989828234772285886546332835517796989819938739800539093906315035659515570226\
    3922908583924491051844359318028499365361525003193704576782492193656236698636584807570015\
    8576926990370631192827955855133292783433840935197801553124659726357957462276646527282722\
    0056374006485499977096599470454020828166226237857393450736339007967761930577506740176324\
    6736009689513405355374585166611342237666786041621596804619144672918403005300575308490487\
    6539171138659164623952491262365388187963623937328042389101867234849766823508986338858792\
    5628302755995657524455507255189313690836254779186948667994968324049705821028513185451396\
    213837722826145437693412532098591327667236328125";

fn plain(text: &str) -> Option<String> {
    keep(text)
}

#[test]
fn numerals_are_written_in_plain_form() {
    for (text, expected) in [
        ("0", "0"),
        ("-0.00", "0"),
        ("000", "0"),
        ("2.0", "2"),
        ("+2.50", "2.5"),
        ("100", "100"),
        ("1e2", "100"),
        ("1E+2", "100"),
        ("1.5e-3", "0.0015"),
        ("-.5", "-0.5"),
        ("5.", "5"),
        ("0012.3400e1", "123.4"),
        ("123e-2", "1.23"),
    ] {
        assert_eq!(plain(text).as_deref(), Some(expected), "{text}");
        assert_eq!(plain(expected).as_deref(), Some(expected), "{expected}");
    }
    for bad in ["", "x", "1e", "inf", "nan", "1.2.3", "--1", "."] {
        assert_eq!(plain(bad), None, "{bad}");
    }
}

#[test]
fn the_range_is_that_of_64_bits() {
    let tiny = format!("0.{}{}", "0".repeat(323), TOO_SMALL);
    let above = format!("{tiny}1");
    let below_large = format!("{}1.9", &TOO_LARGE[..TOO_LARGE.len() - 1]);
    for text in [
        "1e308",
        "1.7976931348623157e308",
        "1.7976931348623158e308",
        "1.7976931348623159e308",
        "1e309",
        "1e99999999999999999999999999999999999",
        "1e-99999999999999999999999999999999999",
        "0e99999999999999999999999999999999999",
        "-1e400",
        "5e-324",
        "2.4703282292062327e-324",
        "2.4703282292062328e-324",
        "1e-324",
        "-1e-324",
        "1e-323",
        TOO_LARGE,
        below_large.as_str(),
        tiny.as_str(),
        above.as_str(),
    ] {
        let v: f64 = text.parse().unwrap();
        assert_eq!(parse_finite(text).is_some(), v.is_finite(), "{text}");
        assert_eq!(is_zero(text), v == 0.0, "{text}");
        assert_eq!(below_zero(text), v < 0.0, "{text}");
    }
}

#[test]
fn plain_forms_print_as_numbers_do() {
    for text in [
        "1",
        "0.1",
        "1e21",
        "1.5e-7",
        "123456789012345",
        "-2.75e20",
        "4.35",
        "9007199254740993",
        "9007199254740992.5",
        "1152921504606846976",
        "0.1234567890123456789",
        "0.30000000000000004",
        "0.1000000000000000055511151231257827021181583404541015625",
        "2.2250738585072011e-308",
        "9.5e22",
        "1e23",
        "99999999999999999999999",
        "1.7976931348623157e308",
        "5e-324",
        "3e-324",
        "1e-320",
    ] {
        let v: f64 = text.parse().unwrap();
        assert_eq!(keep(text), Some(format!("{v}")), "{text}");
    }
}

#[test]
fn of_two_short_forms_the_greater_is_taken_half_way() {
    for text in ["1125899906842624.25", "1125899906842624.75", "1125899906842625.25", "-2251799813685248.5"] {
        let v: f64 = text.parse().unwrap();
        assert_eq!(keep(text), Some(format!("{v}")), "{text}");
    }
}

#[test]
fn numbers_of_all_kinds_are_kept_as_they_print() {
    let mut x: u64 = 88172645463325252;
    for _ in 0..60 {
        x ^= x << 13;
        x ^= x >> 7;
        x ^= x << 17;
        let v = f64::from_bits(x & 0x7fff_ffff_ffff_ffff);
        if v.is_finite() {
            let text = format!("{v:e}");
            let d = parse_finite(&text).unwrap();
            assert_eq!(d.plain(), format!("{v}"), "{text}");
            let small = (x % 1_000_000) as f64 / 997.0;
            assert_eq!(keep(&format!("{small}0001e0")).is_some(), true);
            assert_eq!(keep(&format!("{small:.20}")), Some(format!("{small}")));
        }
    }
}
