use xortool::args::{parse_most_frequent, select_try_chars, str_to_bytes, Parameters};
use xortool::error::XorError;

#[test]
fn test_parse_most_frequent_single_char() {
    assert_eq!(parse_most_frequent("A"), Ok(65));
    assert_eq!(parse_most_frequent(" "), Ok(32));
}

#[test]
fn test_parse_most_frequent_hex_forms() {
    assert_eq!(parse_most_frequent("20"), Ok(0x20));
    assert_eq!(parse_most_frequent("0x41"), Ok(0x41));
    assert_eq!(parse_most_frequent("\\x41"), Ok(0x41));
    assert_eq!(parse_most_frequent("0xff"), Ok(0xff));
}

#[test]
fn test_parse_most_frequent_errors() {
    assert!(matches!(
        parse_most_frequent("0x"),
        Err(XorError::ArgParser { msg: _ })
    ));
    assert!(matches!(
        parse_most_frequent("abcd"),
        Err(XorError::ArgParser { msg: _ })
    ));
}

#[test]
fn test_str_to_bytes() {
    assert_eq!(str_to_bytes("ab"), Ok(vec![97u8, 98u8]));
    assert!(matches!(str_to_bytes(""), Err(XorError::ArgParser { msg: _ })));
}

#[test]
fn test_select_try_chars_modes() {
    let mut param = Parameters::default();
    param.brute_chars = true;
    let all = select_try_chars(&param).unwrap();
    assert_eq!(all.len(), 256);
    assert_eq!(all[0], 0);
    assert_eq!(all[255], 255);

    let mut param = Parameters::default();
    param.brute_printable = true;
    let printable = select_try_chars(&param).unwrap();
    assert_eq!(printable.len(), 100);
    assert!(printable.contains(&b' '));
    assert!(printable.contains(&b'a'));

    let mut param = Parameters::default();
    param.most_frequent_char = Some(b' ');
    assert_eq!(select_try_chars(&param), Some(vec![b' ']));

    let param = Parameters::default();
    assert_eq!(select_try_chars(&param), None);
}
