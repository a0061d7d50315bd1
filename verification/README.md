# grad

The tokenizer and vocabulary side of a small feed-forward language-model
framework, written in Verus and verified: byte-level tokens, a byte trie with
greedy longest-match tokenization, incremental tokenization for generation,
decoding of token streams, byte-pair vocabulary building, and clustering
of similar tokens. Around it sit
the shape arithmetic of the model (embedding placement, convolution
positions and spans).

Layout:

- `src/byte_token.rs`, `src/trie.rs`, `src/fnn_lm.rs`, `src/incremental.rs`,
  `src/miscellaneous.rs`: tokens spelled as `<0xHL>` byte groups, the trie and
  its tokenization, the model's tokenizer, incremental tokenization, and
  stream decoding.
- `src/token_meta.rs`, `src/pairs.rs`, `src/pair_table.rs`, `src/heap.rs`,
  `src/occurrences.rs`, `src/pair_index.rs`, `src/vocab.rs`: vocabulary
  building. Every adjacent pair of the corpus is counted in an
  open-addressing table, recorded in per-pair position lists, and offered
  through a max-heap; the best pair is merged into a new token until the
  vocabulary is full or no pair repeats. A merge takes the pair's recorded
  positions from the newest, which decides how runs such as `a a a` split.
- `src/merge_law.rs`: what one merge does to the token sequence read along
  the links, and why dropping stale positions from a list changes nothing.
- `src/backwards.rs`, `src/conv1d_backward.rs`, `src/depthwise_backward.rs`,
  `src/embeddings.rs`, `src/tensor.rs`, `src/chatter.rs`: shape and placement
  arithmetic of the model.
- `src/layer_shapes.rs`: the shape each layer of a stack hands on and its
  weight and bias counts.
- `src/clusters.rs`: grouping tokens into clusters from pairs of similar
  tokens, with a disjoint-set forest (union by size, path halving).
- `app/lib.rs`: reading a corpus from a file or reader into the vocabulary
  builder, writing a vocabulary as Rust source, printing a token stream,
  finding similar embedding rows (floating point) to print their clusters,
  and printing the shapes and parameter counts of a stack of layers.
- `tests/`: tests on concrete values.
