use grad::token_meta::TokenMeta;

#[test]
fn text_tokens_count_words_and_bytes() {
    let m = TokenMeta::from_token("hello world", true);
    assert_eq!(m.byte_len, 11);
    assert_eq!(m.word_count, 2);
    assert!(m.starts_non_ws);
    assert!(m.ends_non_ws);
    assert!(m.mergeable);
    let s = TokenMeta::from_token(" hi ", false);
    assert_eq!(s.byte_len, 4);
    assert_eq!(s.word_count, 1);
    assert!(!s.starts_non_ws);
    assert!(!s.ends_non_ws);
    assert!(!s.mergeable);
    let e = TokenMeta::from_token("", true);
    assert_eq!(e.byte_len, 0);
    assert_eq!(e.word_count, 0);
}

#[test]
fn byte_tokens_count_the_bytes_they_stand_for() {
    let m = TokenMeta::from_token("<0x20><0x41>", true);
    assert_eq!(m.byte_len, 2);
    assert_eq!(m.word_count, 1);
    assert!(!m.starts_non_ws);
    assert!(m.ends_non_ws);
}

#[test]
fn fusing_joins_words_across_the_seam() {
    let a = TokenMeta::from_token("th", true);
    let b = TokenMeta::from_token("e", true);
    let ab = TokenMeta::fuse(a, b);
    assert_eq!(ab.byte_len, 3);
    assert_eq!(ab.word_count, 1);
    let whole = TokenMeta::from_token("the", true);
    assert_eq!(ab.word_count, whole.word_count);
    assert_eq!(ab.starts_non_ws, whole.starts_non_ws);
    assert_eq!(ab.ends_non_ws, whole.ends_non_ws);
    assert!(TokenMeta::valid_fusion(a, b));
}

#[test]
fn fusion_may_not_span_two_words() {
    let a = TokenMeta::from_token("the ", true);
    let b = TokenMeta::from_token("cat", true);
    assert_eq!(TokenMeta::fuse(a, b).word_count, 2);
    assert!(!TokenMeta::valid_fusion(a, b));
    let space = TokenMeta::from_token(" ", true);
    assert!(TokenMeta::valid_fusion(space, b));
    let fixed = TokenMeta::from_token("x", false);
    assert!(!TokenMeta::valid_fusion(fixed, b));
}

#[test]
fn unicode_spaces_separate_words() {
    // U+3000 and U+00A0 are White_Space; U+200B is not
    let m = TokenMeta::from_token("a\u{3000}b\u{a0}c\u{200b}d", true);
    assert_eq!(m.word_count, 3);
}
