use grad::miscellaneous::{decode_token_stream, flush_held_bytes, stream_token};

#[test]
fn byte_tokens_join_into_characters() {
    let tokens = vec![
        "h".to_string(),
        "<0xC3>".to_string(),
        "<0xA9>".to_string(),
        "!".to_string(),
    ];
    assert_eq!(decode_token_stream(&tokens), "hé!");
}

#[test]
fn plain_text_passes_through() {
    let tokens = vec!["Once".to_string(), " upon".to_string(), " a time".to_string()];
    assert_eq!(decode_token_stream(&tokens), "Once upon a time");
    assert_eq!(decode_token_stream(&[]), "");
}

#[test]
fn unfinished_characters_are_replaced_at_the_end() {
    let tokens = vec!["a".to_string(), "<0xE2><0x82>".to_string()];
    assert_eq!(decode_token_stream(&tokens), "a\u{FFFD}");
}

#[test]
fn streaming_holds_back_partial_characters() {
    let mut buffer = Vec::new();
    assert_eq!(stream_token("x<0xE2>", &mut buffer), "x");
    assert_eq!(buffer, vec![0xE2]);
    assert_eq!(stream_token("<0x82>", &mut buffer), "");
    assert_eq!(buffer, vec![0xE2, 0x82]);
    assert_eq!(stream_token("<0xAC>y", &mut buffer), "€y");
    assert!(buffer.is_empty());
}

#[test]
fn streaming_keeps_plain_text_after_the_last_marker() {
    let mut buffer = Vec::new();
    assert_eq!(stream_token("ab", &mut buffer), "ab");
    assert!(buffer.is_empty());
    assert_eq!(stream_token("<0xC3>", &mut buffer), "");
    assert_eq!(stream_token("z", &mut buffer), "\u{FFFD}z");
    assert!(buffer.is_empty());
}

#[test]
fn streaming_then_flushing_matches_batch_decoding() {
    let tokens: Vec<String> = ["a", "<0xE2>", "<0x82>", "b", "<0xAC>", "c", "<0xFF>"]
        .iter()
        .map(|t| t.to_string())
        .collect();
    let mut buf = Vec::new();
    let mut streamed = String::new();
    for t in &tokens {
        streamed.push_str(&stream_token(t, &mut buf));
    }
    streamed.push_str(&String::from_utf8_lossy(&buf));
    assert_eq!(streamed, decode_token_stream(&tokens));
}

#[test]
fn text_without_markers_decodes_to_its_concatenation() {
    let tokens: Vec<String> = ["x<0", "y", "0x", "é ", "<"].iter().map(|t| t.to_string()).collect();
    assert_eq!(decode_token_stream(&tokens), tokens.concat());
}

#[test]
fn byte_markers_cut_at_group_boundaries_decode_back() {
    let s = "héllo €!";
    let enc: String = s.bytes().map(|b| format!("<0x{:02X}>", b)).collect();
    for cut in [6usize, 12, 18] {
        let toks: Vec<String> = enc.as_bytes().chunks(cut).map(|c| String::from_utf8(c.to_vec()).unwrap()).collect();
        assert_eq!(decode_token_stream(&toks), s);
    }
}

#[test]
fn markers_read_as_from_str_radix_does() {
    // "+A" reads as 10, lower-case digits are accepted, "-1" is refused
    let tokens: Vec<String> = ["<0x+A>", "<0x6a>", "<0x-1>"].iter().map(|t| t.to_string()).collect();
    assert_eq!(decode_token_stream(&tokens), "\nj<0x-1>");
}

#[test]
fn flushing_held_bytes_is_lossy_decoding() {
    assert_eq!(flush_held_bytes(&[]), "");
    assert_eq!(flush_held_bytes(&[0xE2, 0x82]), "\u{FFFD}");
    assert_eq!(flush_held_bytes(b"ok"), "ok");
    let tokens: Vec<String> = ["x", "<0xE2>", "<0x82>", "<0xAC>", "y"].iter().map(|t| t.to_string()).collect();
    let mut buf = Vec::new();
    let mut streamed = String::new();
    for t in &tokens {
        streamed.push_str(&stream_token(t, &mut buf));
    }
    assert!(buf.is_empty());
    streamed.push_str(&flush_held_bytes(&buf));
    assert_eq!(streamed, decode_token_stream(&tokens));
    assert_eq!(streamed, "x\u{20AC}y");
}
