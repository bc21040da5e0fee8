use xortool::error::XorError;
use xortool::tool_xor::{from_hex_str, from_raw_str, from_str, xor};

#[test]
fn test_from_str() {
    assert_eq!(
        from_str("Hello \\tWorld!"),
        Ok("Hello \tWorld!".as_bytes().to_vec())
    )
}

#[test]
fn test_from_str_invalid_escape() {
    match from_str("bad \\z escape") {
        Err(XorError::UnicodeDecode { msg }) => assert!(!msg.is_empty()),
        _ => panic!("invalid escape must be rejected"),
    }
}

#[test]
fn test_from_raw_string() {
    assert_eq!(
        from_raw_str("Hello \\tWorld!"),
        Ok("Hello \\tWorld!".as_bytes().to_vec())
    );
}

#[test]
fn test_from_hex_str() {
    assert_eq!(
        from_hex_str("48 65 6C 6C 6F 20 57 6F 72 6C 64"),
        Ok("Hello World".as_bytes().to_vec())
    );
}

#[test]
fn test_from_hex_str_trailing_digit() {
    assert_eq!(from_hex_str("ABC"), Ok(vec![0xab, 0x0c]));
}

#[test]
fn test_from_empty_strings() {
    assert!(matches!(from_str(""), Err(XorError::ArgParser { msg: _ })));
    assert!(matches!(from_raw_str(""), Err(XorError::ArgParser { msg: _ })));
    assert!(matches!(from_hex_str(""), Err(XorError::ArgParser { msg: _ })));
}

#[test]
fn test_xor_no_cycle() {
    let args = vec![vec![1u8, 2, 3], vec![1u8, 1]];
    assert_eq!(xor(args, false), vec![0, 3, 3]);
}

#[test]
fn test_xor_cycle() {
    let args = vec![vec![1u8, 2, 3], vec![1u8, 1]];
    assert_eq!(xor(args, true), vec![0, 3, 2]);
}

#[test]
fn test_xor_single_argument() {
    let args = vec![vec![7u8, 8, 9]];
    assert_eq!(xor(args, true), vec![7, 8, 9]);
}
