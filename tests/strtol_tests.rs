use rs9cc::libc::{strtol, StrtolError};

#[test]
fn test_strtol_1() {
    let (actual_num, actual_rest_s) = strtol(&"ff 1".to_string(), 16).ok().unwrap();
    let expected_num = 255;
    let expected_rest_s = " 1";
    assert_eq!(actual_num, expected_num);
    assert_eq!(actual_rest_s.as_str(), expected_rest_s);
}

#[test]
fn test_strtol_2() {
    let result = strtol(&"aaa".to_string(), 10);
    assert_eq!(result.map_err(|e| e.message()), Err("No number is parsed."));
}

#[test]
fn test_strtol_3() {
    let (actual_num, actual_rest_s) = strtol(&"42".to_string(), 10).ok().unwrap();
    let expected_num = 42;
    let expected_rest_s = "";
    assert_eq!(actual_num, expected_num);
    assert_eq!(actual_rest_s.as_str(), expected_rest_s);
}

#[test]
fn strtol_keeps_lookahead_in_rest() {
    let (v, rest) = strtol(&"123abc".to_string(), 10).unwrap();
    assert_eq!(v, 123);
    assert_eq!(rest, "abc");
    let (v, rest) = strtol(&"7+8".to_string(), 10).unwrap();
    assert_eq!(v, 7);
    assert_eq!(rest, "+8");
}

#[test]
fn strtol_case_insensitive_high_radix() {
    let (v, rest) = strtol(&"zZ!".to_string(), 36).unwrap();
    assert_eq!(v, 35 * 36 + 35);
    assert_eq!(rest, "!");
    let (v, rest) = strtol(&"FfG".to_string(), 16).unwrap();
    assert_eq!(v, 255);
    assert_eq!(rest, "G");
}

#[test]
fn strtol_binary_stops_at_two() {
    let (v, rest) = strtol(&"1012".to_string(), 2).unwrap();
    assert_eq!(v, 5);
    assert_eq!(rest, "2");
}

#[test]
fn strtol_empty_has_no_digits() {
    assert_eq!(strtol(&String::new(), 10), Err(StrtolError::NoDigits));
    assert_eq!(strtol(&" 1".to_string(), 10), Err(StrtolError::NoDigits));
}

#[test]
fn strtol_radix_37_is_invalid() {
    assert_eq!(strtol(&"12".to_string(), 37), Err(StrtolError::InvalidRadix));
    assert_eq!(strtol(&String::new(), 37), Err(StrtolError::InvalidRadix));
    assert_eq!(StrtolError::InvalidRadix.message(), "too big radix (> 36)");
}

#[test]
fn strtol_largest_and_overflow() {
    let (v, rest) = strtol(&"9223372036854775807 x".to_string(), 10).unwrap();
    assert_eq!(v, i64::MAX);
    assert_eq!(rest, " x");
    assert_eq!(
        strtol(&"9223372036854775808".to_string(), 10),
        Err(StrtolError::OutOfRange)
    );
}
