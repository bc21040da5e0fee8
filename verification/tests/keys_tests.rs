use xortool::keys::{all_keys, guess_keys, guess_probable_keys_for_chars, to_printable_key};

#[test]
fn test_guess_keys_unique_maximum() {
    let text = vec![1u8, 2, 1, 2];
    assert_eq!(guess_keys(&text, 0, 2), vec![vec![1u8, 2u8]]);
    assert_eq!(guess_keys(&text, 3, 2), vec![vec![2u8, 1u8]]);
}

#[test]
fn test_guess_keys_tied_histogram() {
    // Every byte of each stride is different, so all of them tie.
    let text = vec![1u8, 2, 3, 4];
    let keys = guess_keys(&text, 0, 2);
    assert_eq!(keys, vec![vec![1u8, 2], vec![1, 4], vec![3, 2], vec![3, 4]]);
}

#[test]
fn test_all_keys() {
    let table = vec![vec![1u8, 2u8], vec![3u8]];
    assert_eq!(all_keys(&table, &[], 0), vec![vec![1u8, 3u8], vec![2u8, 3u8]]);
}

#[test]
fn test_all_keys_with_prefix() {
    let table = vec![vec![1u8], vec![2u8]];
    assert_eq!(all_keys(&table, &[9u8], 1), vec![vec![9u8, 2u8]]);
}

#[test]
fn test_guess_probable_keys_dedup_and_origin() {
    let text = vec![1u8, 2, 1, 2];
    let (keys, origins) = guess_probable_keys_for_chars(&text, &[0u8, 3u8], 2);
    assert_eq!(keys, vec![vec![1u8, 2u8], vec![2u8, 1u8]]);
    assert_eq!(origins, vec![0u8, 3u8]);
}

#[test]
fn test_guess_probable_keys_last_origin_wins() {
    let text = vec![1u8, 2, 1, 2];
    // Hypotheses 0 and 0x00 are the same byte twice: one key, last origin.
    let (keys, origins) = guess_probable_keys_for_chars(&text, &[0u8, 0u8], 2);
    assert_eq!(keys, vec![vec![1u8, 2u8]]);
    assert_eq!(origins, vec![0u8]);
}

#[test]
fn test_brute_all_chars_on_short_ambiguous_text() {
    // Brute forcing all 256 hypothesis bytes over a short, fully tied
    // ciphertext must finish and deduplicate rather than blow up.
    let text = vec![0x61u8, 0x62, 0x63, 0x64];
    let mut all_chars: Vec<u8> = Vec::new();
    for b in 0..=255u8 {
        all_chars.push(b);
    }
    let (keys, origins) = guess_probable_keys_for_chars(&text, &all_chars, 2);
    assert_eq!(keys.len(), origins.len());
    assert!(!keys.is_empty());
    for key in &keys {
        assert_eq!(key.len(), 2);
    }
}

#[test]
fn test_to_printable_key_plain_and_escapes() {
    assert_eq!(to_printable_key("ab".as_bytes()), "ab");
    assert_eq!(to_printable_key(&[b'a', 9, b'b']), "a\\tb");
    assert_eq!(to_printable_key(&[0x00]), "\\x00");
    assert_eq!(to_printable_key(&[0xff]), "\\xff");
    assert_eq!(to_printable_key(&[b'\\']), "\\\\");
}

#[test]
fn test_to_printable_key_quote_styles() {
    // A lone single quote stays bare; next to a double quote it is escaped.
    assert_eq!(to_printable_key(&[b'\'']), "'");
    assert_eq!(to_printable_key(&[b'"']), "\"");
    assert_eq!(to_printable_key(&[b'\'', b'"']), "\\'\"");
}
