use grad::byte_token::{
    append_token_bytes, decoded_token_len, hex_value, is_byte_encoded_token, parse_byte_token,
};
use grad::vocab::{add_byte_fallback_tokens, byte_token_string, merged_token_string};

#[test]
fn hex_digits_of_either_case() {
    assert_eq!(hex_value(b'0'), Some(0));
    assert_eq!(hex_value(b'9'), Some(9));
    assert_eq!(hex_value(b'a'), Some(10));
    assert_eq!(hex_value(b'F'), Some(15));
    assert_eq!(hex_value(b'g'), None);
    assert_eq!(hex_value(b'<'), None);
}

#[test]
fn single_byte_tokens_parse() {
    assert_eq!(parse_byte_token("<0x41>"), Some(0x41));
    assert_eq!(parse_byte_token("<0xff>"), Some(0xff));
    assert_eq!(parse_byte_token("<0x4G>"), None);
    assert_eq!(parse_byte_token("<0x41"), None);
    assert_eq!(parse_byte_token("<0x41><0x42>"), None);
    assert_eq!(parse_byte_token("A"), None);
}

#[test]
fn runs_of_byte_groups_are_byte_encoded() {
    assert!(is_byte_encoded_token("<0xE2><0x82><0xAC>"));
    assert!(is_byte_encoded_token("<0x00>"));
    assert!(!is_byte_encoded_token(""));
    assert!(!is_byte_encoded_token("<0xE2>x"));
    assert!(!is_byte_encoded_token("hello"));
}

#[test]
fn token_bytes_decode_groups() {
    let mut out = vec![1u8];
    append_token_bytes("<0xE2><0x82><0xAC>", &mut out);
    assert_eq!(out, vec![1u8, 0xE2, 0x82, 0xAC]);
    append_token_bytes("ab", &mut out);
    assert_eq!(out, vec![1u8, 0xE2, 0x82, 0xAC, b'a', b'b']);
    assert_eq!(decoded_token_len("<0xE2><0x82><0xAC>"), 3);
    assert_eq!(decoded_token_len("héllo"), 6);
    assert_eq!(decoded_token_len(""), 0);
}

#[test]
fn byte_tokens_are_upper_case_hex() {
    assert_eq!(byte_token_string(0), "<0x00>");
    assert_eq!(byte_token_string(0x2a), "<0x2A>");
    assert_eq!(byte_token_string(0xff), "<0xFF>");
}

#[test]
fn fallback_block_is_appended_in_order() {
    let mut vocab = vec!["x".to_string()];
    add_byte_fallback_tokens(&mut vocab);
    assert_eq!(vocab.len(), 257);
    assert_eq!(vocab[0], "x");
    assert_eq!(vocab[1], "<0x00>");
    assert_eq!(vocab[1 + 0x41], "<0x41>");
    assert_eq!(vocab[256], "<0xFF>");
}

#[test]
fn merged_tokens_spell_text_or_byte_groups() {
    assert_eq!(merged_token_string(b"th"), "th");
    assert_eq!(merged_token_string("é".as_bytes()), "é");
    assert_eq!(merged_token_string(&[0xC3]), "<0xC3>");
    assert_eq!(merged_token_string(&[b'a', 0xFF]), "<0x61><0xFF>");
}

#[test]
fn merged_token_reads_back_as_its_bytes() {
    let bytes = [0xE2u8, 0x82];
    let token = merged_token_string(&bytes);
    let mut out = Vec::new();
    append_token_bytes(&token, &mut out);
    assert_eq!(out, bytes.to_vec());
}
