use readcon_core::error::ParseError;
use readcon_core::number::{parse_count, Number};

fn message(r: Result<Number, ParseError>) -> String {
    match r {
        Err(ParseError::InvalidNumberFormat(m)) => m,
        other => panic!("unexpected {:?}", other),
    }
}

#[test]
fn what_is_a_number() {
    for text in [
        "0", "1.", ".5", "-1.5e10", "+2E-3", "1e+5", "inf", "-Infinity", "NaN", "+nan", "INF",
        "007", "1.e3", "0.000000",
    ] {
        let n = Number::parse(text).unwrap_or_else(|e| panic!("{} refused: {:?}", text, e));
        assert_eq!(n.as_bytes(), text.as_bytes());
        assert!(text.parse::<f64>().is_ok());
    }
    for text in [
        ".", "e5", "1e", "1e+", "--1", "1.5.2", "abc", "in", "infinit", "nan0", "1 ", " 1", "1_0",
        "0x10", "+", "-", "1,5", "\u{663}",
    ] {
        assert_eq!(message(Number::parse(text)), "invalid float literal", "{}", text);
        assert!(text.parse::<f64>().is_err());
    }
    assert_eq!(message(Number::parse("")), "cannot parse float from empty string");
}

#[test]
fn what_is_a_count() {
    assert_eq!(parse_count(b"0").unwrap(), 0);
    assert_eq!(parse_count(b"+42").unwrap(), 42);
    assert_eq!(parse_count(b"000123").unwrap(), 123);
    assert_eq!(
        parse_count(usize::MAX.to_string().as_bytes()).unwrap(),
        usize::MAX
    );
    let text = |r: Result<usize, ParseError>| match r {
        Err(ParseError::InvalidNumberFormat(m)) => m,
        other => panic!("unexpected {:?}", other),
    };
    assert_eq!(text(parse_count(b"")), "cannot parse integer from empty string");
    assert_eq!(text(parse_count(b"+")), "invalid digit found in string");
    assert_eq!(text(parse_count(b"-")), "invalid digit found in string");
    assert_eq!(text(parse_count(b"-1")), "invalid digit found in string");
    assert_eq!(text(parse_count(b"1.0")), "invalid digit found in string");
    assert_eq!(text(parse_count(b"12a")), "invalid digit found in string");
    assert_eq!(
        text(parse_count(b"18446744073709551616")),
        "number too large to fit in target type"
    );
    assert_eq!(
        text(parse_count(b"99999999999999999999999x")),
        "number too large to fit in target type"
    );
}

#[test]
fn whole_part_of_a_number() {
    let id = |s: &str| Number::parse(s).unwrap().to_u64();
    assert_eq!(id("0"), 0);
    assert_eq!(id("218"), 218);
    assert_eq!(id("218.999"), 218);
    assert_eq!(id("0.999"), 0);
    assert_eq!(id(".5"), 0);
    assert_eq!(id("1.5e3"), 1500);
    assert_eq!(id("15e-1"), 1);
    assert_eq!(id("123456e-3"), 123);
    assert_eq!(id("123456e-6"), 0);
    assert_eq!(id("123456e-99999999999999999999999"), 0);
    assert_eq!(id("1e19"), 10000000000000000000);
    assert_eq!(id("18446744073709551615"), u64::MAX);
    assert_eq!(id("18446744073709551614.9"), u64::MAX - 1);
    assert_eq!(id("18446744073709551616"), u64::MAX);
    assert_eq!(id("1e20"), u64::MAX);
    assert_eq!(id("0e99999999999999999999999999"), 0);
    assert_eq!(id("0.0001e99999999999999999999999999"), u64::MAX);
    assert_eq!(id("-5"), 0);
    assert_eq!(id("-inf"), 0);
    assert_eq!(id("inf"), u64::MAX);
    assert_eq!(id("nan"), 0);
    assert_eq!(id("9007199254740993"), 9007199254740993);
}

#[test]
fn which_numbers_are_zero() {
    let nonzero = |s: &str| Number::parse(s).unwrap().is_nonzero();
    assert!(!nonzero("0"));
    assert!(!nonzero("0.0"));
    assert!(!nonzero("-0.000e10"));
    assert!(!nonzero(".0"));
    assert!(nonzero("1"));
    assert!(nonzero("0.0001"));
    assert!(nonzero("1e-5"));
    assert!(nonzero("inf"));
    assert!(nonzero("nan"));
}

#[test]
fn an_integer_as_a_number() {
    assert_eq!(Number::from_u64(0).as_bytes(), b"0");
    assert_eq!(Number::from_u64(907).as_bytes(), b"907");
    assert_eq!(Number::from_u64(u64::MAX).as_bytes(), b"18446744073709551615");
    assert_eq!(Number::from_u64(u64::MAX).to_u64(), u64::MAX);
    let n = Number::from_u64(12);
    assert_eq!(n.clone(), n);
}
