use cute::val::value_or_err;
use cute::val::ValueParser;
use cute::Error;

#[test]
fn test_value_or_err() {
    assert!(value_or_err(None).is_err());
    let s = String::from("test");
    assert_eq!(value_or_err(Some(&s)).unwrap(), &s);
}

#[test]
fn test_bool_parser() {
    assert!(!bool::parse(None).unwrap());
    assert!(bool::parse(Some(&String::from(""))).unwrap());
}

#[test]
fn test_string_parser() {
    assert!(String::parse(None).is_err());
    let s = String::from("test");
    assert_eq!(String::parse(Some(&s)).unwrap(), s);
}

#[test]
fn test_number_parsers() {
    // Test integer types
    assert_eq!(i32::parse(Some(&String::from("42"))).unwrap(), 42);
    assert_eq!(u32::parse(Some(&String::from("42"))).unwrap(), 42);
    assert!(i32::parse(Some(&String::from("abc"))).is_err());
}

#[test]
fn test_signed_bounds() {
    assert_eq!(i8::parse(Some(&String::from("127"))).unwrap(), 127);
    assert_eq!(i8::parse(Some(&String::from("-128"))).unwrap(), -128);
    assert!(i8::parse(Some(&String::from("128"))).is_err());
    assert!(i8::parse(Some(&String::from("-129"))).is_err());
    assert_eq!(
        i32::parse(Some(&String::from("-2147483648"))).unwrap(),
        i32::MIN
    );
    assert!(i32::parse(Some(&String::from("2147483648"))).is_err());
    assert_eq!(
        i64::parse(Some(&String::from("-9223372036854775808"))).unwrap(),
        i64::MIN
    );
    assert_eq!(
        i128::parse(Some(&String::from(
            "-170141183460469231731687303715884105728"
        )))
        .unwrap(),
        i128::MIN
    );
}

#[test]
fn test_unsigned_bounds() {
    assert_eq!(u8::parse(Some(&String::from("255"))).unwrap(), 255);
    assert!(u8::parse(Some(&String::from("256"))).is_err());
    assert_eq!(
        u64::parse(Some(&String::from("18446744073709551615"))).unwrap(),
        u64::MAX
    );
    assert!(u64::parse(Some(&String::from("18446744073709551616"))).is_err());
    assert_eq!(
        u128::parse(Some(&String::from(
            "340282366920938463463374607431768211455"
        )))
        .unwrap(),
        u128::MAX
    );
    assert!(u128::parse(Some(&String::from(
        "340282366920938463463374607431768211456"
    )))
    .is_err());
}

#[test]
fn test_sign_handling() {
    assert_eq!(i32::parse(Some(&String::from("+42"))).unwrap(), 42);
    assert_eq!(u32::parse(Some(&String::from("+42"))).unwrap(), 42);
    assert!(u32::parse(Some(&String::from("-42"))).is_err());
    assert!(u32::parse(Some(&String::from("-0"))).is_err());
    assert_eq!(i32::parse(Some(&String::from("-0"))).unwrap(), 0);
    assert!(i32::parse(Some(&String::from("+"))).is_err());
    assert!(i32::parse(Some(&String::from("-"))).is_err());
    assert!(i32::parse(Some(&String::from(""))).is_err());
    assert!(i32::parse(Some(&String::from("4 2"))).is_err());
    assert!(i32::parse(Some(&String::from("42a"))).is_err());
}

#[test]
fn test_parser_errors_are_custom() {
    let e = i32::parse(Some(&String::from("abc"))).unwrap_err();
    assert!(matches!(e, Error::Custom(_)));
    let e = i32::parse(None).unwrap_err();
    assert!(matches!(e, Error::Custom(_)));
}
