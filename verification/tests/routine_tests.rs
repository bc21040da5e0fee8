use xortool::error::XorError;
use xortool::routine::{decode_from_hex, dexor};

#[test]
fn test_decode_from_hex() {
    let input = "48 65 6C 6C 6F 20 57 6F 72 6C 64".as_bytes();
    assert_eq!(decode_from_hex(input), Ok("Hello World".as_bytes().to_vec()));
}

#[test]
fn test_decode_from_hex_odd_count() {
    let input = "48 65 6".as_bytes();
    match decode_from_hex(input) {
        Err(XorError::UnicodeDecode { msg: _ }) => (),
        _ => panic!("odd digit count must be rejected"),
    }
}

#[test]
fn test_decode_from_hex_ignores_other_bytes() {
    let input = "0x41,0x42".as_bytes();
    // The 'x' and ',' bytes are dropped; the digits left are 0 4 1 0 4 2.
    assert_eq!(decode_from_hex(input), Ok(vec![0x04, 0x10, 0x42]));
}

#[test]
fn test_dexor() {
    let text = vec![1, 2, 3, 4, 5, 6, 7, 8];
    let key = vec![3, 2, 1];
    assert_eq!(dexor(&text, &key), vec![2, 0, 2, 7, 7, 7, 4, 10]);
}

#[test]
fn test_dexor_round_trip() {
    let text = "attack at dawn".as_bytes().to_vec();
    let key = vec![0x13, 0x37, 0x42];
    let once = dexor(&text, &key);
    let twice = dexor(&once, &key);
    assert_eq!(twice, text);
}

#[test]
fn test_dexor_empty_text() {
    let text: Vec<u8> = Vec::new();
    let key = vec![9];
    assert_eq!(dexor(&text, &key), Vec::<u8>::new());
}
