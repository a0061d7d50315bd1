//! Text-to-id encoding of the language model, and the model's tokenizer and
//! dataset state.
use vstd::prelude::*;
use vstd::string::StringSliceAdditionalSpecFns;
use crate::byte_token;
use crate::trie::{self, Trie};
use crate::embeddings::{Embeddings, ParamRange};
use crate::clusters::shared_clusters;

verus! {

/// The spelling of the first fallback entry, `<0x00>`.
pub open spec fn null_byte_token() -> Seq<u8> {
    seq![60u8, 48u8, 120u8, 48u8, 48u8, 62u8]
}

/// The first index at or after `i` whose spelling is `t`, or -1.
pub open spec fn index_of_first(sp: Seq<Seq<u8>>, t: Seq<u8>, i: int) -> int
    decreases sp.len() - i,
{
    if i < 0 || i >= sp.len() {
        -1
    } else if sp[i] == t {
        i
    } else {
        index_of_first(sp, t, i + 1)
    }
}

/// Where the byte fallback block of a vocabulary starts: its first `<0x00>`.
pub open spec fn fallback_base(sp: Seq<Seq<u8>>) -> int {
    index_of_first(sp, null_byte_token(), 0)
}

/// A vocabulary that the tokenizer accepts: it holds `<0x00>`, a full
/// 256-entry block fits from the first one on, and ids and trie nodes fit in
/// 32 bits.
pub open spec fn vocab_ok(vocab: Seq<String>) -> bool {
    let sp = trie::spellings(vocab);
    &&& 0 <= fallback_base(sp)
    &&& fallback_base(sp) + 256 <= vocab.len()
    &&& vocab.len() <= 4294967295
    &&& trie::total_token_bytes(sp, vocab.len() as int) + 1 <= 4294967295
}

/// The ids that `vocab` gives the bytes `b`.
pub open spec fn vocab_tokenize(vocab: Seq<String>, b: Seq<u8>) -> Seq<u32> {
    let sp = trie::spellings(vocab);
    trie::tokenize_spec(trie::vocab_dict(sp, vocab.len() as int), fallback_base(sp) as u32, b)
}

pub proof fn lemma_index_of_first(sp: Seq<Seq<u8>>, t: Seq<u8>, i: int)
    ensures
        index_of_first(sp, t, i) == -1 || (i <= index_of_first(sp, t, i) < sp.len()
            && sp[index_of_first(sp, t, i)] == t),
    decreases sp.len() - i,
{
    if 0 <= i < sp.len() && sp[i] != t {
        lemma_index_of_first(sp, t, i + 1);
    }
}

/// Whether a vocabulary entry is spelled `<0x00>`.
fn is_null_byte_token(token: &String) -> (r: bool)
    ensures
        r == (crate::byte_token::spelled(token@) == null_byte_token()),
{
    let b = token.as_str().as_bytes();
    let r = b.len() == 6 && b[0] == 60u8 && b[1] == 48u8 && b[2] == 120u8 && b[3] == 48u8 && b[4]
        == 48u8 && b[5] == 62u8;
    proof {
        if r {
            assert(b@ =~= null_byte_token());
        }
    }
    r
}

/// The bytes that the ids `ids` stand for under the spellings `sp`, one after
/// the other (byte-spelled entries standing for the bytes they spell).
pub open spec fn decoded_ids(sp: Seq<Seq<u8>>, ids: Seq<u32>) -> Seq<u8>
    decreases ids.len(),
{
    if ids.len() == 0 {
        Seq::empty()
    } else {
        byte_token::token_bytes(sp[ids[0] as int]) + decoded_ids(sp, ids.drop_first())
    }
}

/// Every key of the dictionary is the bytes of the entry it maps to.
proof fn lemma_vocab_dict_entries(sp: Seq<Seq<u8>>, n: int)
    requires
        0 <= n <= sp.len(),
        sp.len() <= 4294967295,
    ensures
        forall|w: Seq<u8>|
            #[trigger] trie::vocab_dict(sp, n).contains_key(w) ==> 0 <= trie::vocab_dict(sp, n)[w] < n
                && byte_token::token_bytes(sp[trie::vocab_dict(sp, n)[w] as int]) == w,
    decreases n,
{
    if n > 0 {
        lemma_vocab_dict_entries(sp, n - 1);
        let prev = trie::vocab_dict(sp, n - 1);
        let d = trie::vocab_dict(sp, n);
        let w0 = byte_token::token_bytes(sp[n - 1]);
        assert forall|w: Seq<u8>| #[trigger] d.contains_key(w) implies 0 <= d[w] < n
            && byte_token::token_bytes(sp[d[w] as int]) == w by {
            if w0.len() > 0 && w == w0 {
                assert(d[w] == (n - 1) as u32);
            } else {
                assert(prev.contains_key(w));
                assert(d[w] == prev[w]);
            }
        }
    }
}

/// A longest match found is a key of the dictionary.
proof fn lemma_longest_is_key(dict: Map<Seq<u8>, u32>, b: Seq<u8>, pos: int, m: int)
    requires
        trie::longest_in(dict, b, pos, m) > 0,
    ensures
        dict.contains_key(b.subrange(pos, pos + trie::longest_in(dict, b, pos, m))),
    decreases m,
{
    if m > 0 && !dict.contains_key(b.subrange(pos, pos + m)) {
        lemma_longest_is_key(dict, b, pos, m - 1);
    }
}

proof fn lemma_tokenize_from_decodes(sp: Seq<Seq<u8>>, base: u32, b: Seq<u8>, pos: int)
    requires
        sp.len() <= 4294967295,
        base + 256 <= sp.len(),
        forall|x: u8| #[trigger] byte_token::token_bytes(sp[base + x]) == seq![x],
        0 <= pos <= b.len(),
    ensures
        ({
            let ids = trie::tokenize_from(trie::vocab_dict(sp, sp.len() as int), base, b, pos);
            &&& decoded_ids(sp, ids) == b.subrange(pos, b.len() as int)
            &&& forall|i: int| 0 <= i < ids.len() ==> (#[trigger] ids[i] as int) < sp.len()
        }),
    decreases b.len() - pos,
{
    let dict = trie::vocab_dict(sp, sp.len() as int);
    let ids = trie::tokenize_from(dict, base, b, pos);
    if pos < b.len() {
        let (id, k) = trie::step_at(dict, base, b, pos);
        trie::lemma_longest_in_bounds(dict, b, pos, b.len() - pos);
        lemma_vocab_dict_entries(sp, sp.len() as int);
        let k0 = trie::match_len(dict, b, pos);
        if k0 == 0 {
            let x = b[pos];
            assert(byte_token::token_bytes(sp[base + x]) == seq![x]);
            assert(id == base + x);
        } else {
            lemma_longest_is_key(dict, b, pos, b.len() - pos);
        }
        assert(k > 0 && pos + k <= b.len());
        lemma_tokenize_from_decodes(sp, base, b, pos + k);
        let rest = trie::tokenize_from(dict, base, b, pos + k);
        assert(ids == seq![id] + rest);
        assert(ids.drop_first() =~= rest);
        assert(byte_token::token_bytes(sp[id as int]) == b.subrange(pos, pos + k));
        assert(b.subrange(pos, pos + k) + b.subrange(pos + k, b.len() as int) =~= b.subrange(
            pos,
            b.len() as int,
        ));
        assert forall|i: int| 0 <= i < ids.len() implies (#[trigger] ids[i] as int) < sp.len() by {
            if i > 0 {
                assert(ids[i] == rest[i - 1]);
            }
        }
    } else {
        assert(b.subrange(pos, b.len() as int) =~= Seq::<u8>::empty());
    }
}

/// Law: when every byte has its fallback entry, the ids of a text stand for
/// exactly the text's bytes: each id is an entry of the vocabulary, and the
/// bytes of those entries, one after the other, are the text.
pub proof fn lemma_tokenize_round_trip(vocab: Seq<String>, text: Seq<u8>)
    requires
        vocab_ok(vocab),
        forall|x: u8|
            #[trigger] byte_token::token_bytes(trie::spellings(vocab)[fallback_base(trie::spellings(vocab)) + x])
                == seq![x],
    ensures
        decoded_ids(trie::spellings(vocab), vocab_tokenize(vocab, text)) == text,
        forall|i: int|
            0 <= i < vocab_tokenize(vocab, text).len() ==> (#[trigger] vocab_tokenize(vocab, text)[i] as int)
                < vocab.len(),
{
    let sp = trie::spellings(vocab);
    let base = fallback_base(sp) as u32;
    assert forall|x: u8| #[trigger] byte_token::token_bytes(sp[base + x]) == seq![x] by {
        assert(byte_token::token_bytes(sp[fallback_base(sp) + x]) == seq![x]);
    }
    lemma_tokenize_from_decodes(sp, base, text, 0);
    assert(text.subrange(0, text.len() as int) =~= text);
}

/// Id of the first `<0x00>` entry, where the byte fallback block starts.
pub fn byte_fallback_base(vocab: &[String]) -> (r: u32)
    requires
        0 <= fallback_base(trie::spellings(vocab@)),
        vocab@.len() <= 4294967295,
    ensures
        r as int == fallback_base(trie::spellings(vocab@)),
{
    let ghost sp = trie::spellings(vocab@);
    let mut i: usize = 0;
    proof {
        lemma_index_of_first(sp, null_byte_token(), 0);
    }
    while i < vocab.len()
        invariant
            sp == trie::spellings(vocab@),
            0 <= i <= vocab@.len(),
            vocab@.len() <= 4294967295,
            index_of_first(sp, null_byte_token(), 0) == index_of_first(sp, null_byte_token(), i as int),
            0 <= index_of_first(sp, null_byte_token(), i as int),
        decreases vocab.len() - i,
    {
        if is_null_byte_token(&vocab[i]) {
            return i as u32;
        }
        i += 1;
    }
    0
}

/// Token ids of `text` under `vocab`: greedy longest match over raw bytes,
/// with the byte fallback block for bytes that start no entry.
pub fn tokenize(text: &str, vocab: &[String]) -> (r: Vec<usize>)
    requires
        vocab_ok(vocab@),
    ensures
        r@ == vocab_tokenize(vocab@, text.spec_bytes()).map_values(|x: u32| x as usize),
{
    let base = byte_fallback_base(vocab);
    let t = Trie::from_vocab(vocab, base);
    let ids = t.tokenize_u32(text);
    let mut out: Vec<usize> = Vec::with_capacity(ids.len());
    let mut i: usize = 0;
    while i < ids.len()
        invariant
            0 <= i <= ids@.len(),
            out@ == ids@.subrange(0, i as int).map_values(|x: u32| x as usize),
        decreases ids.len() - i,
    {
        out.push(ids[i] as usize);
        i += 1;
        assert(out@ =~= ids@.subrange(0, i as int).map_values(|x: u32| x as usize));
    }
    assert(ids@.subrange(0, i as int) =~= ids@);
    out
}

/// Token ids of `text` under `vocab`, each kept in 16 bits.
pub fn tokenize_u16(text: &str, vocab: &[String]) -> (r: Vec<u16>)
    requires
        vocab_ok(vocab@),
    ensures
        r@ == vocab_tokenize(vocab@, text.spec_bytes()).map_values(|x: u32| x as u16),
{
    let base = byte_fallback_base(vocab);
    let t = Trie::from_vocab(vocab, base);
    t.tokenize_bytes_u16(text.as_bytes())
}

/// The language model's tokenizer, training data and shape: its vocabulary,
/// the token ids of its corpus, its context length, the widths of its hidden
/// layers, and where its embedding table sits among its parameters.
pub struct LM {
    dataset: Vec<u16>,
    vocab: Vec<String>,
    context_len: u32,
    hidden_layers: Vec<usize>,
    embeddings: Embeddings,
}

impl LM {
    pub closed spec fn dataset_view(&self) -> Seq<u16> {
        self.dataset@
    }

    pub closed spec fn vocab_view(&self) -> Seq<String> {
        self.vocab@
    }

    pub closed spec fn context_len_view(&self) -> u32 {
        self.context_len
    }

    pub closed spec fn hidden_layers_view(&self) -> Seq<usize> {
        self.hidden_layers@
    }

    pub closed spec fn embeddings_view(&self) -> Embeddings {
        self.embeddings
    }

    /// A model with context `context_len`, vocabulary `vocab`, hidden layers of
    /// the given widths and embeddings of `embedding_dim`; the embedding table
    /// is the first block of its parameters, and it has no data yet.
    pub fn new(context_len: u32, vocab: Vec<String>, hidden_dim: &[usize], embedding_dim: usize) -> (r: LM)
        requires
            vocab@.len() > 0,
            embedding_dim > 0,
            vocab@.len() * embedding_dim <= usize::MAX,
            context_len * embedding_dim <= usize::MAX,
        ensures
            r.dataset_view() == Seq::<u16>::empty(),
            r.vocab_view() == vocab@,
            r.context_len_view() == context_len,
            r.hidden_layers_view() == hidden_dim@,
            r.embeddings_view().wf(),
            r.embeddings_view().dim() == embedding_dim,
            r.embeddings_view().range() == (ParamRange {
                start: 0,
                len: (vocab@.len() * embedding_dim) as usize,
            }),
    {
        let embeddings = Embeddings::new(0, vocab.len(), embedding_dim);
        let mut hidden_layers: Vec<usize> = Vec::with_capacity(hidden_dim.len());
        let mut i: usize = 0;
        while i < hidden_dim.len()
            invariant
                0 <= i <= hidden_dim@.len(),
                hidden_layers@ == hidden_dim@.subrange(0, i as int),
            decreases hidden_dim.len() - i,
        {
            hidden_layers.push(hidden_dim[i]);
            i += 1;
            assert(hidden_layers@ =~= hidden_dim@.subrange(0, i as int));
        }
        assert(hidden_dim@.subrange(0, i as int) =~= hidden_dim@);
        LM { dataset: Vec::new(), vocab, context_len, hidden_layers, embeddings }
    }

    /// Number of token ids in the training data.
    pub fn dataset_size(&self) -> (r: usize)
        ensures
            r == self.dataset_view().len(),
    {
        self.dataset.len()
    }

    /// Token ids of `string` under the model's vocabulary.
    pub fn encode_nums(&self, string: String) -> (r: Vec<u16>)
        requires
            vocab_ok(self.vocab_view()),
        ensures
            r@ == vocab_tokenize(self.vocab_view(), crate::byte_token::spelled(string@)).map_values(
                |x: u32| x as u16,
            ),
    {
        tokenize_u16(string.as_str(), self.vocab.as_slice())
    }

    /// Replaces the training data.
    pub fn set_dataset(&mut self, dataset: Vec<u16>)
        ensures
            final(self).dataset_view() == dataset@,
            final(self).vocab_view() == old(self).vocab_view(),
            final(self).context_len_view() == old(self).context_len_view(),
            final(self).hidden_layers_view() == old(self).hidden_layers_view(),
            final(self).embeddings_view() == old(self).embeddings_view(),
    {
        self.dataset = dataset;
    }

    /// Tokenizes `corpus` into the training data.
    pub fn load_corpus_silent(&mut self, corpus: &str)
        requires
            vocab_ok(old(self).vocab_view()),
        ensures
            final(self).dataset_view() == vocab_tokenize(
                old(self).vocab_view(),
                corpus.spec_bytes(),
            ).map_values(|x: u32| x as u16),
            final(self).vocab_view() == old(self).vocab_view(),
            final(self).context_len_view() == old(self).context_len_view(),
            final(self).hidden_layers_view() == old(self).hidden_layers_view(),
            final(self).embeddings_view() == old(self).embeddings_view(),
    {
        self.dataset = tokenize_u16(corpus, self.vocab.as_slice());
    }

    /// A copy of the embedding table's placement.
    pub fn embeds(&self) -> (r: Embeddings)
        ensures
            r == self.embeddings_view(),
    {
        self.embeddings
    }
    /// The clusters of more than one token that the pairs of similar tokens
    /// `similar` join in the model's embedding table.
    pub fn find_clusters(&self, similar: &[(usize, usize)]) -> (clusters: Vec<Vec<usize>>)
        requires
            self.embeddings_view().wf(),
            forall|i: int|
                0 <= i < similar.len() ==> #[trigger] similar[i].0 < self.embeddings_view().range().len
                    / self.embeddings_view().dim() && similar[i].1 < self.embeddings_view().range().len
                    / self.embeddings_view().dim(),
        ensures
            clusters.len() == shared_clusters(
                similar@,
                (self.embeddings_view().range().len / self.embeddings_view().dim()) as nat,
            ).len(),
            forall|g: int|
                0 <= g < clusters.len() ==> #[trigger] clusters[g]@ == shared_clusters(
                    similar@,
                    (self.embeddings_view().range().len / self.embeddings_view().dim()) as nat,
                )[g],
    {
        self.embeddings.find_clusters(similar)
    }
}

} // verus!
