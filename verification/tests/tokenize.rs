use grad::byte_token::append_token_bytes;
use grad::fnn_lm::{byte_fallback_base, tokenize, tokenize_u16};
use grad::token_meta::TokenMeta;
use grad::trie::Trie;
use grad::vocab::add_byte_fallback_tokens;

/// `""`, the 256 byte tokens (ids 1..=256), then `extra`.
fn vocab_with(extra: &[&str]) -> Vec<String> {
    let mut vocab = vec![String::new()];
    add_byte_fallback_tokens(&mut vocab);
    for t in extra {
        vocab.push(t.to_string());
    }
    vocab
}

#[test]
fn fallback_base_is_first_null_byte_token() {
    let vocab = vocab_with(&["ab"]);
    assert_eq!(byte_fallback_base(&vocab), 1);
    let mut shifted = vec!["a".to_string(), "b".to_string()];
    add_byte_fallback_tokens(&mut shifted);
    assert_eq!(byte_fallback_base(&shifted), 2);
}

#[test]
fn longest_match_wins() {
    let vocab = vocab_with(&["ab", "abc"]);
    let trie = Trie::from_vocab(&vocab, 1);
    assert_eq!(trie.tokenize_bytes(b"abcd"), vec![258, 1 + b'd' as u32]);
    assert_eq!(trie.tokenize_bytes(b"abd"), vec![257, 1 + b'd' as u32]);
    assert_eq!(trie.tokenize_bytes(b""), Vec::<u32>::new());
    assert_eq!(trie.tokenize_u32("aab"), vec![1 + b'a' as u32, 257]);
    assert_eq!(trie.tokenize_bytes_u16(b"abcab"), vec![258u16, 257]);
}

#[test]
fn unknown_bytes_fall_back_to_byte_tokens() {
    let vocab = vocab_with(&[]);
    let trie = Trie::from_vocab(&vocab, 1);
    assert_eq!(trie.tokenize_bytes("é".as_bytes()), vec![1 + 0xC3, 1 + 0xA9]);
    assert_eq!(trie.max_token_bytes_of(), 1);
    assert_eq!(trie.byte_fallback_base_of(), 1);
}

#[test]
fn later_entry_with_same_bytes_wins() {
    // "<0x61>" stands for the byte 'a', as does the plain entry "a" added later.
    let vocab = vocab_with(&["a"]);
    let trie = Trie::from_vocab(&vocab, 1);
    assert_eq!(trie.tokenize_bytes(b"a"), vec![257]);
}

#[test]
fn model_tokenizer_uses_vocabulary() {
    let vocab = vocab_with(&["ab"]);
    assert_eq!(tokenize("abx", &vocab), vec![257usize, 1 + b'x' as usize]);
    assert_eq!(tokenize_u16("xab", &vocab), vec![1 + b'x' as u16, 257]);
}

#[test]
fn tokens_cover_every_byte_once() {
    let vocab = vocab_with(&["ab", "<0xC3><0xA9>"]);
    let trie = Trie::from_vocab(&vocab, 1);
    let text = "abéxab".as_bytes();
    let ids = trie.tokenize_bytes(text);
    assert_eq!(ids, vec![257, 258, 1 + b'x' as u32, 257]);
    let total: u32 = ids
        .iter()
        .map(|&id| TokenMeta::from_token(&vocab[id as usize], true).byte_len)
        .sum();
    assert_eq!(total as usize, text.len());
}

#[test]
fn token_ids_decode_back_to_the_text() {
    let vocab = vocab_with(&["ab", "abc", " the", "é"]);
    let text = "abcab the éx<0x41>\u{1F600}";
    let ids = tokenize(text, &vocab);
    let mut bytes = Vec::new();
    for &id in &ids {
        assert!(id < vocab.len());
        append_token_bytes(&vocab[id], &mut bytes);
    }
    assert_eq!(bytes, text.as_bytes());
}
