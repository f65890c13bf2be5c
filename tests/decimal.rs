use parser_combinator::decimal::Dec;
use parser_combinator::error::{ErrorKind, Expected};

#[test]
fn test_parse_num() {
    let Ok(("", num)) = Dec::parse("-12.0e-5") else {
        unreachable!();
    };
    assert_eq!(num.to_string(), "-0.12e-3");
    assert_eq!(format!("Dec({})", num.to_string()), "Dec(-0.12e-3)");
    assert_eq!(num.data.len(), 2);

    let Ok((",", num)) = Dec::parse("-12.0e+3,") else {
        unreachable!();
    };
    assert_eq!(num.to_string(), "-12000");
    assert_eq!(format!("Dec({})", num.to_string()), "Dec(-12000)");
    assert_eq!(num.data.len(), 2);

    let Ok(("", num)) = Dec::parse("12.3e+1") else {
        unreachable!();
    };
    assert_eq!(num.to_string(), "123");
    assert_eq!(num.data.len(), 3);
}

#[test]
fn magnitude_is_kept() {
    let (rest, num) = Dec::parse("-12.0e-5").unwrap();
    assert_eq!(rest, "");
    assert!(num.negative);
    assert_eq!(num.data, vec![1, 2]);
    assert_eq!(num.exponent, -3);
    assert_eq!(num.to_string(), "-0.12e-3");
    assert_eq!(Dec::parse("-12.0e+3").unwrap().1.to_string(), "-12000");
    assert_eq!(Dec::parse("12.3e+1").unwrap().1.to_string(), "123");
}

#[test]
fn trailing_zeros_are_stripped() {
    let (_, num) = Dec::parse("1.20").unwrap();
    assert_eq!(num.data, vec![1, 2]);
    assert_eq!(num.exponent, 1);
    assert_eq!(num.to_string(), "0.12e1");
    let (_, num) = Dec::parse("100").unwrap();
    assert_eq!(num.data, vec![1]);
    assert_eq!(num.exponent, 3);
    assert!(num.is_int());
    assert_eq!(num.to_string(), "100");
}

#[test]
fn zero_and_leading_zero() {
    let (rest, num) = Dec::parse("0").unwrap();
    assert_eq!(rest, "");
    assert!(num.data.is_empty());
    assert_eq!(num.exponent, 1);
    assert_eq!(num.to_string(), "0");
    let (rest, num) = Dec::parse("0123").unwrap();
    assert_eq!(rest, "123");
    assert_eq!(num.to_string(), "0");
    let (rest, num) = Dec::parse("1.").unwrap();
    assert_eq!(rest, ".");
    assert_eq!(num.to_string(), "1");
}

#[test]
fn integral_round_trip() {
    for text in ["12000", "-7", "0", "-0", "105", "9e3"] {
        let (_, num) = Dec::parse(text).unwrap();
        let rendered = num.to_string();
        let (rest, again) = Dec::parse(&rendered).unwrap();
        assert_eq!(rest, "");
        assert_eq!(again, num);
    }
}

#[test]
fn fractions_render_with_exponent() {
    let (_, num) = Dec::parse("123.01").unwrap();
    assert_eq!(num.to_string(), "0.12301e3");
    assert!(!num.is_int());
    let (_, num) = Dec::parse("0.5").unwrap();
    assert_eq!(num.data, vec![0, 5]);
    assert_eq!(num.to_string(), "0.05e1");
}

#[test]
fn decimal_errors() {
    let err = Dec::parse("-x").unwrap_err();
    assert_eq!(err.kind, ErrorKind::Mismatch);
    assert_eq!(err.offset, 1);
    assert_eq!(err.expected, Expected::Digit);
    let err = Dec::parse("1e+").unwrap_err();
    assert_eq!(err.kind, ErrorKind::Mismatch);
    assert_eq!(err.offset, 3);
    let err = Dec::parse("1e99999999999").unwrap_err();
    assert_eq!(err.kind, ErrorKind::Failure);
    assert_eq!(err.expected, Expected::ExponentInRange);
    let (_, num) = Dec::parse("1e2147483646").unwrap();
    assert_eq!(num.exponent, 2147483647);
}
