use htlk_executable::json::{check_integral_token, read_string, scan_number, scan_string, JsonError};

#[test]
fn number_tokens_follow_the_json_grammar() {
    assert!(matches!(scan_number(b"-12.5e+3,", 0), Ok((5, 8, 3))));
    assert!(matches!(scan_number(b"01", 0), Ok((1, 1, 0))));
    assert!(matches!(scan_number(b"[7E-2]", 1), Ok((2, 5, -2))));
    assert!(matches!(scan_number(b"-x", 0), Err(JsonError::Syntax { offset: 1 })));
    assert!(matches!(scan_number(b"1.", 0), Err(JsonError::Syntax { offset: 2 })));
    assert!(matches!(scan_number(b"1e", 0), Err(JsonError::Syntax { offset: 2 })));
    assert!(matches!(scan_number(b"1e+", 0), Err(JsonError::Syntax { offset: 3 })));
    assert!(matches!(scan_number(b"1e99999999999999999999", 0), Ok((1, 22, i64::MAX))));
}

#[test]
fn integral_tokens_beyond_the_safe_range_are_refused() {
    assert!(check_integral_token(b"9007199254740991", 0).is_ok());
    assert!(check_integral_token(b"-9007199254740991", 0).is_ok());
    assert!(matches!(check_integral_token(b"9007199254740992", 0), Err(JsonError::UnsafeNumber)));
    assert!(matches!(check_integral_token(b"9.007199254740993", 15), Err(JsonError::UnsafeNumber)));
    assert!(check_integral_token(b"9.007199254740991", 15).is_ok());
    assert!(matches!(check_integral_token(b"1", 16), Err(JsonError::UnsafeNumber)));
    assert!(check_integral_token(b"1", 15).is_ok());
    assert!(check_integral_token(b"1.5", 0).is_ok());
    assert!(check_integral_token(b"0.000", 400).is_ok());
    assert!(check_integral_token(b"90071992547409910", -1).is_ok());
}

#[test]
fn json_strings_are_scanned_and_decoded() {
    let token = br#""a\n\u00e9\ud83d\ude00" tail"#;
    let (text, end) = read_string(token, 0, 100).unwrap();
    assert_eq!(text, "a\n\u{e9}\u{1f600}");
    assert_eq!(end, 23);
    assert_eq!(scan_string(token, 0, 100).unwrap(), 23);
    assert!(matches!(scan_string(br#""\udc00""#, 0, 100), Err(JsonError::Syntax { offset: 7 })));
    assert!(matches!(scan_string(br#""\ud800x""#, 0, 100), Err(JsonError::Syntax { offset: 7 })));
    assert!(matches!(scan_string(br#""\q""#, 0, 100), Err(JsonError::Syntax { offset: 2 })));
    assert!(matches!(scan_string(b"\"a\x01\"", 0, 100), Err(JsonError::Syntax { offset: 2 })));
    assert!(matches!(scan_string(b"\"abc", 0, 100), Err(JsonError::Syntax { offset: 4 })));
    assert!(matches!(scan_string(b"x", 0, 100), Err(JsonError::Syntax { offset: 0 })));
    assert!(matches!(
        scan_string(b"\"ab\"", 0, 1),
        Err(JsonError::LimitExceeded { maximum: 1, .. })
    ));
    assert!(matches!(scan_string(br#""\u00zz""#, 0, 100), Err(JsonError::Syntax { offset: 5 })));
}
