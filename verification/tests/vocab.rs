use grad::byte_token::append_token_bytes;
use grad::pair_index::VocabError;
use grad::vocab::VocabBuilder;

fn build(chunks: &[&[u8]], token_num: usize, reserved: usize, specials: Option<&[&str]>) -> Vec<String> {
    let mut builder = VocabBuilder::new(token_num, reserved, specials, 16);
    for c in chunks {
        builder.feed(c).unwrap();
    }
    builder.finish().unwrap()
}

#[test]
fn starting_vocabulary_layout() {
    let specials = ["<BOS>", "<EOS>"];
    let vocab = build(&[], 10, 2, Some(&specials));
    assert_eq!(vocab.len(), 3 + 2 + 256);
    assert_eq!(vocab[0], "");
    assert_eq!(vocab[2], "");
    assert_eq!(vocab[3], "<BOS>");
    assert_eq!(vocab[4], "<EOS>");
    assert_eq!(vocab[5], "<0x00>");
    assert_eq!(vocab[5 + 255], "<0xFF>");
}

#[test]
fn most_frequent_pair_is_merged_first() {
    let vocab = build(&[b"abab"], 1, 0, None);
    assert_eq!(vocab.len(), 258);
    assert_eq!(vocab[257], "ab");
}

#[test]
fn merging_stops_without_repeated_pairs() {
    // after "ab", the corpus is "ab ab": that pair is seen once only
    let vocab = build(&[b"abab"], 5, 0, None);
    assert_eq!(vocab.len(), 258);
    assert_eq!(vocab[257], "ab");
}

#[test]
fn words_grow_but_never_span_two_words() {
    let vocab = build(&[b"the the the"], 5, 0, None);
    assert_eq!(vocab.len(), 260);
    assert_eq!(vocab[257], "th");
    assert_eq!(vocab[258], "the");
    assert_eq!(vocab[259], "the ");
}

#[test]
fn chunk_boundaries_do_not_change_a_byte_level_start() {
    let whole = build(&[b"the the the"], 5, 0, None);
    let split = build(&[b"the t", b"he", b" the"], 5, 0, None);
    assert_eq!(whole, split);
}

#[test]
fn empty_corpus_keeps_starting_vocabulary() {
    let vocab = build(&[b""], 10, 0, None);
    assert_eq!(vocab.len(), 257);
}

#[test]
fn special_tokens_are_matched_whole_and_never_merged() {
    let specials = ["<s>"];
    let vocab = build(&[b"<s>ab<s>ab<s>"], 3, 0, Some(&specials));
    // ids: "" 0, "<s>" 1, bytes 2..=257
    assert_eq!(vocab[1], "<s>");
    assert_eq!(vocab[258], "ab");
    assert_eq!(vocab.len(), 259);
}

#[test]
fn merged_bytes_that_are_not_text_become_byte_groups() {
    // "é" is C3 A9: the pair of byte tokens merges into the text "é"
    let vocab = build(&["éé".as_bytes()], 1, 0, None);
    assert_eq!(vocab[257], "é");
    let mut bytes = Vec::new();
    append_token_bytes(&vocab[257], &mut bytes);
    assert_eq!(bytes, vec![0xC3, 0xA9]);
}

#[test]
fn half_characters_are_spelled_as_byte_groups() {
    // A9 C3 repeats twice; the pair (A9, C3) is not UTF-8
    let vocab = build(&[&[0xA9, 0xC3, 0xA9, 0xC3, 0x41]], 1, 0, None);
    assert_eq!(vocab[257], "<0xA9><0xC3>");
}

#[test]
fn feeding_counts_bytes_without_failing_below_the_limit() {
    let mut builder = VocabBuilder::new(1, 0, None, 16);
    assert!(builder.feed(b"hello").is_ok());
    assert!(builder.feed(b"").is_ok());
    let vocab = builder.finish().unwrap();
    assert_eq!(vocab.len(), 257);
}

#[test]
fn errors_are_distinct() {
    let e = VocabError::CorpusTooLarge;
    assert!(matches!(e, VocabError::CorpusTooLarge));
    assert!(!matches!(VocabError::TooManyPairs, VocabError::OccurrenceOverflow));
}

#[test]
fn overlapping_runs_merge_from_the_newest_recorded_position() {
    // "aaa" becomes "a" + "aa": the recorded positions of (a, a) are taken
    // from the last, so the right pair of the run merges; the next merge
    // then joins "aa" with the "b" after it.
    let vocab = build(&[b"aaabaaab"], 2, 0, None);
    assert_eq!(vocab.len(), 259);
    assert_eq!(vocab[257], "aa");
    assert_eq!(vocab[258], "aab");
}
