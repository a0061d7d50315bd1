pub mod byte_token;
pub mod trie;
pub mod fnn_lm;
pub mod incremental;
pub mod miscellaneous;
pub mod token_meta;
pub mod backwards;
pub mod conv1d_backward;
pub mod depthwise_backward;
pub mod embeddings;
pub mod tensor;
pub mod chatter;
pub mod pairs;
pub mod pair_table;
pub mod heap;
pub mod occurrences;
pub mod pair_index;
pub mod merge_law;
pub mod vocab;
pub mod clusters;
pub mod layer_shapes;
