use grad::byte_token::append_token_bytes;
use grad::chatter::ChatFNN;
use grad::fnn_lm::LM;
use grad::incremental::IncrementalTokenizer;
use grad::tensor::TensorHandle;
use grad::trie::Trie;
use grad::vocab::add_byte_fallback_tokens;

fn vocab_with(extra: &[&str]) -> Vec<String> {
    let mut vocab = vec![String::new()];
    add_byte_fallback_tokens(&mut vocab);
    for t in extra {
        vocab.push(t.to_string());
    }
    vocab
}

#[test]
fn model_shape_and_embedding_placement() {
    let vocab = vocab_with(&["ab"]);
    let lm = LM::new(16, vocab, &[128, 64], 32);
    assert_eq!(lm.dataset_size(), 0);
    let e = lm.embeds();
    assert_eq!(e.embedding_dim(), 32);
    assert_eq!(e.vocab_size(), 258);
    assert_eq!(e.parameter_range().start, 0);
    assert_eq!(e.parameter_count(), 258 * 32);
}

#[test]
fn model_encodes_and_loads_text() {
    let vocab = vocab_with(&["ab"]);
    let mut lm = LM::new(4, vocab, &[8], 2);
    assert_eq!(lm.encode_nums("abz".to_string()), vec![257u16, 1 + b'z' as u16]);
    lm.load_corpus_silent("ababab");
    assert_eq!(lm.dataset_size(), 3);
    lm.set_dataset(vec![1, 2, 3, 4, 5]);
    assert_eq!(lm.dataset_size(), 5);
    let _chat = ChatFNN::new(lm);
}

#[test]
fn incremental_ids_match_batch_tokenization() {
    let vocab = vocab_with(&["ab", "abc"]);
    let trie = Trie::from_vocab(&vocab, 1);
    let mut inc = IncrementalTokenizer::new(&trie, 100);
    inc.push_token("ab");
    inc.push_raw_bytes(b"c");
    inc.push_token("<0x64>");
    let ids = inc.current_ids(4, 0);
    let batch: Vec<usize> = trie.tokenize_bytes(b"abcd").iter().map(|&x| x as usize).collect();
    assert_eq!(batch, vec![258, 1 + b'd' as usize]);
    assert_eq!(ids, vec![0, 0, 258, 1 + b'd' as usize]);
}

#[test]
fn incremental_window_keeps_the_last_ids() {
    let vocab = vocab_with(&[]);
    let trie = Trie::from_vocab(&vocab, 1);
    let mut inc = IncrementalTokenizer::new(&trie, 100);
    inc.push_raw_bytes(b"wxyz");
    assert_eq!(inc.current_ids(2, 0), vec![1 + b'y' as usize, 1 + b'z' as usize]);
    assert_eq!(inc.current_ids(0, 0), Vec::<usize>::new());
}

#[test]
fn tensor_handles_compare_by_fields() {
    let h = TensorHandle { node: 3, index: 1 };
    let g = h;
    assert_eq!((g.node, g.index), (3, 1));
}

#[test]
fn model_clusters_come_from_its_embedding_table() {
    let vocab = vocab_with(&["ab", "ba"]);
    let lm = LM::new(4, vocab, &[8], 2);
    assert_eq!(lm.find_clusters(&[(257, 258), (1, 258)]), vec![vec![1, 257, 258]]);
    assert_eq!(lm.find_clusters(&[]), Vec::<Vec<usize>>::new());
}

#[test]
fn incremental_window_matches_batch_tokenization_after_dropping() {
    let vocab = vocab_with(&["ab", "abc", "ca"]);
    let trie = Trie::from_vocab(&vocab, 1);
    // keeps at most 3 fixed ids, so older ones are dropped along the way
    let mut inc = IncrementalTokenizer::new(&trie, 3);
    let mut all = Vec::new();
    for piece in ["ab", "c", "<0x61>", "b", "cab", "ca", "x", "abca"] {
        inc.push_token(piece);
        let mut bytes = Vec::new();
        append_token_bytes(piece, &mut bytes);
        all.extend_from_slice(&bytes);
        let batch: Vec<usize> = trie.tokenize_bytes(&all).iter().map(|&x| x as usize).collect();
        for n in 0..=3usize {
            let expected: Vec<usize> = if batch.len() >= n {
                batch[batch.len() - n..].to_vec()
            } else {
                let mut v = vec![7usize; n - batch.len()];
                v.extend_from_slice(&batch);
                v
            };
            assert_eq!(inc.current_ids(n, 7), expected);
        }
    }
}
