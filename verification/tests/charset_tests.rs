use xortool::charset::get_charset;
use xortool::error::XorError;

const PRINTABLE: &str = "0123456789abcdefghijklmnopqrstuvwxyzABCDEFGHIJKLMNOPQRSTUVWXYZ!\"#$%&'()*+,-./:;<=>?@[\\]^_`{|}~ \t\n\r\x0b\x0c";

#[test]
fn test_empty_str() {
    assert_eq!(get_charset(""), Ok(PRINTABLE.to_string()));
}

#[test]
fn test_predefined_charsets() {
    assert_eq!(
        get_charset("base32"),
        Ok(String::from("ABCDEFGHIJKLMNOPQRSTUVWXYZ234567="))
    );
    assert_eq!(
        get_charset("base64"),
        Ok(String::from(
            "abcdefghijklmnopqrstuvwxyzABCDEFGHIJKLMNOPQRSTUVWXYZ0123456789/+="
        ))
    );
    assert_eq!(get_charset("printable"), Ok(PRINTABLE.to_string()));
}

#[test]
fn test_building_charset() {
    assert_eq!(
        get_charset("aA"),
        Ok(String::from(
            "abcdefghijklmnopqrstuvwxyzABCDEFGHIJKLMNOPQRSTUVWXYZ"
        ))
    );
}

#[test]
fn test_invalid_charset() {
    assert_eq!(
        get_charset("aZ"),
        Err(XorError::CharsetError { charset: 'Z' })
    )
}

#[test]
fn test_building_charset_digits_special() {
    assert_eq!(
        get_charset("1!"),
        Ok(String::from("0123456789!\"#$%&'()*+,-./:;<=>?@[\\]^_`{|}~"))
    );
}
