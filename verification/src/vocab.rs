//! Building a byte-pair vocabulary: the starting vocabulary, greedy
//! tokenization of the corpus as it is read, and the merge loop.
use vstd::prelude::*;
use vstd::string::StringSliceAdditionalSpecFns;
use vstd::utf8::valid_utf8;
use crate::byte_token::{
    append_token_bytes,
    spelled,
    token_bytes,
    is_byte_encoded,
    byte_groups_from,
    byte_group_at,
    decode_groups_from,
    lemma_decode_groups_len,
};
use crate::miscellaneous::utf8_text;
use crate::heap::entry_le;
use crate::pair_index::{
    PairIndex,
    VocabError,
    MAX_CORPUS_BYTES,
    MAX_PAIRS,
    bytes_before,
    meta_ok,
    edge_count,
    edges,
    entry_for,
    initial_next,
    initial_prev,
    links_ok,
    merged_into,
    initial_lists,
    recorded_in,
    scan_merge,
    merge_pass,
    pass_start,
};
use crate::merge_law::{lemma_merge_live_sequence, live_tokens, replaces_pairs};
use crate::occurrences::REMOVED;
use crate::pairs::{pair_ids, pair_ids_spec};
use crate::token_meta::{
    TokenMeta,
    token_meta_spec,
    fuse_spec,
    lemma_word_count_bound,
    lemma_chars_le_bytes,
    char_flags,
    byte_flags,
};
use crate::trie::{
    Trie,
    spellings,
    vocab_dict,
    total_token_bytes,
    tokenize_spec,
    tokenize_from,
    step_at,
    match_len,
    lemma_longest_in_bounds,
};

verus! {

/// Upper-case hexadecimal digit of a nibble.
pub open spec fn hex_upper_spec(d: u8) -> u8 {
    if d < 10 {
        (48 + d) as u8
    } else {
        (55 + d) as u8
    }
}

/// The six bytes `<0xHL>` that spell byte `b`.
pub open spec fn byte_spelling(b: u8) -> Seq<u8> {
    seq![60u8, 48u8, 120u8, hex_upper_spec(b / 16), hex_upper_spec(b % 16), 62u8]
}

/// Every byte of `bytes` spelled as a `<0xHL>` group.
pub open spec fn hex_spelling(bytes: Seq<u8>) -> Seq<u8>
    decreases bytes.len(),
{
    if bytes.len() == 0 {
        Seq::empty()
    } else {
        hex_spelling(bytes.drop_last()) + byte_spelling(bytes.last())
    }
}

/// The spelling of a token that stands for `bytes`: the bytes themselves
/// when they are UTF-8, else one `<0xHL>` group per byte.
pub open spec fn merged_spelling(bytes: Seq<u8>) -> Seq<u8> {
    if valid_utf8(bytes) {
        bytes
    } else {
        hex_spelling(bytes)
    }
}

/// Bytes below 0x80 are valid UTF-8.
pub proof fn lemma_ascii_valid(b: Seq<u8>)
    requires
        forall|i: int| 0 <= i < b.len() ==> b[i] < 128,
    ensures
        valid_utf8(b),
    decreases b.len(),
{
    if b.len() > 0 {
        let rest = b.subrange(1, b.len() as int);
        assert(vstd::utf8::pop_first_scalar(b) == rest);
        assert forall|i: int| 0 <= i < rest.len() implies rest[i] < 128 by {
            assert(rest[i] == b[i + 1]);
        }
        lemma_ascii_valid(rest);
    }
}

fn hex_upper(d: u8) -> (r: u8)
    requires
        d < 16,
    ensures
        r == hex_upper_spec(d),
{
    if d < 10 {
        48 + d
    } else {
        55 + d
    }
}

/// Text made of the given bytes, which are UTF-8.
fn text_of(bytes: &[u8]) -> (r: String)
    requires
        valid_utf8(bytes@),
    ensures
        spelled(r@) == bytes@,
{
    match utf8_text(bytes) {
        Some(s) => s.to_owned(),
        None => {
            proof {
                assert(false);
            }
            String::new()
        },
    }
}

/// The token `<0xHL>` that stands for byte `b`.
pub fn byte_token_string(b: u8) -> (r: String)
    ensures
        spelled(r@) == byte_spelling(b),
{
    let mut v: Vec<u8> = Vec::with_capacity(6);
    v.push(60);
    v.push(48);
    v.push(120);
    v.push(hex_upper(b / 16));
    v.push(hex_upper(b % 16));
    v.push(62);
    proof {
        assert(v@ =~= byte_spelling(b));
        lemma_ascii_valid(v@);
    }
    text_of(v.as_slice())
}

/// Appends the 256 byte tokens `<0x00>` to `<0xFF>`, in order.
pub fn add_byte_fallback_tokens(vocab: &mut Vec<String>)
    ensures
        final(vocab)@.len() == old(vocab)@.len() + 256,
        forall|i: int| 0 <= i < old(vocab)@.len() ==> #[trigger] final(vocab)@[i] == old(vocab)@[i],
        forall|b: int|
            0 <= b < 256 ==> spelled(#[trigger] final(vocab)@[old(vocab)@.len() + b]@)
                == byte_spelling(b as u8),
{
    let mut byte: u16 = 0;
    while byte <= 255
        invariant
            0 <= byte <= 256,
            vocab@.len() == old(vocab)@.len() + byte,
            forall|i: int| 0 <= i < old(vocab)@.len() ==> #[trigger] vocab@[i] == old(vocab)@[i],
            forall|b: int|
                0 <= b < byte ==> spelled(#[trigger] vocab@[old(vocab)@.len() + b]@) == byte_spelling(
                    b as u8,
                ),
        decreases 256 - byte,
    {
        let t = byte_token_string(byte as u8);
        vocab.push(t);
        byte += 1;
    }
}

/// The token spelling `bytes`: the bytes as text when they are UTF-8,
/// else each byte as its `<0xHL>` group.
pub fn merged_token_string(bytes: &[u8]) -> (r: String)
    ensures
        spelled(r@) == merged_spelling(bytes@),
{
    match utf8_text(bytes) {
        Some(s) => s.to_owned(),
        None => {
            let mut encoded = String::new();
            let mut i: usize = 0;
            while i < bytes.len()
                invariant
                    0 <= i <= bytes@.len(),
                    !valid_utf8(bytes@),
                    spelled(encoded@) == hex_spelling(bytes@.take(i as int)),
                decreases bytes@.len() - i,
            {
                let t = byte_token_string(bytes[i]);
                let ghost before = encoded@;
                encoded.append(t.as_str());
                proof {
                    let tk = bytes@.take(i + 1);
                    assert(tk.drop_last() == bytes@.take(i as int));
                    assert(tk.last() == bytes@[i as int]);
                    assert(encoded@ == before + t@);
                    crate::byte_token::lemma_spelled_concat(before, t@);
                }
                i += 1;
            }
            proof {
                assert(bytes@.take(bytes@.len() as int) == bytes@);
            }
            encoded
        },
    }
}


/// Every byte spelled as a `<0xHL>` group, first byte first.
spec fn hex_from(x: Seq<u8>) -> Seq<u8>
    decreases x.len(),
{
    if x.len() == 0 {
        Seq::empty()
    } else {
        byte_spelling(x[0]) + hex_from(x.drop_first())
    }
}

proof fn lemma_hex_from_push(x: Seq<u8>, c: u8)
    ensures
        hex_from(x.push(c)) == hex_from(x) + byte_spelling(c),
    decreases x.len(),
{
    if x.len() == 0 {
        assert(x.push(c).drop_first() =~= Seq::<u8>::empty());
        assert(hex_from(Seq::<u8>::empty()) == Seq::<u8>::empty());
        assert(x.push(c)[0] == c);
        assert(hex_from(x.push(c)) == byte_spelling(c) + Seq::<u8>::empty());
        assert(hex_from(x.push(c)) =~= byte_spelling(c));
        assert(hex_from(x) + byte_spelling(c) =~= byte_spelling(c));
    } else {
        assert(x.push(c).drop_first() =~= x.drop_first().push(c));
        lemma_hex_from_push(x.drop_first(), c);
        assert(hex_from(x.push(c)) =~= hex_from(x) + byte_spelling(c));
    }
}

proof fn lemma_hex_spelling_from(x: Seq<u8>)
    ensures
        hex_spelling(x) == hex_from(x),
    decreases x.len(),
{
    if x.len() > 0 {
        lemma_hex_spelling_from(x.drop_last());
        lemma_hex_from_push(x.drop_last(), x.last());
        assert(x.drop_last().push(x.last()) =~= x);
    }
}

/// The groups after a prefix are read as in the rest alone.
proof fn lemma_groups_shift(p: Seq<u8>, r: Seq<u8>, pos: int)
    requires
        0 <= pos,
    ensures
        byte_groups_from(p + r, p.len() + pos) == byte_groups_from(r, pos),
        decode_groups_from(p + r, p.len() + pos) == decode_groups_from(r, pos),
    decreases r.len() - pos,
{
    let s = p + r;
    let q = p.len() + pos;
    if pos + 6 <= r.len() {
        assert(s[q] == r[pos]);
        assert(s[q + 1] == r[pos + 1]);
        assert(s[q + 2] == r[pos + 2]);
        assert(s[q + 3] == r[pos + 3]);
        assert(s[q + 4] == r[pos + 4]);
        assert(s[q + 5] == r[pos + 5]);
        assert(byte_group_at(s, q) == byte_group_at(r, pos));
        lemma_groups_shift(p, r, pos + 6);
    }
}

proof fn lemma_byte_spelling_value(c: u8)
    ensures
        byte_group_at(byte_spelling(c), 0) == Some(c),
{
    let s = byte_spelling(c);
    let hi = c / 16;
    let lo = c % 16;
    assert(crate::byte_token::hex_digit_value(hex_upper_spec(hi)) == Some(hi));
    assert(crate::byte_token::hex_digit_value(hex_upper_spec(lo)) == Some(lo));
    assert((hi * 16 + lo) as u8 == c);
}

proof fn lemma_hex_from_decodes(x: Seq<u8>)
    ensures
        byte_groups_from(hex_from(x), 0),
        decode_groups_from(hex_from(x), 0) == x,
    decreases x.len(),
{
    if x.len() > 0 {
        let g = byte_spelling(x[0]);
        let rest = hex_from(x.drop_first());
        lemma_hex_from_decodes(x.drop_first());
        lemma_groups_shift(g, rest, 0);
        lemma_byte_spelling_value(x[0]);
        let s = g + rest;
        assert(byte_group_at(s, 0) == byte_group_at(g, 0)) by {
            assert(s[0] == g[0] && s[1] == g[1] && s[2] == g[2]);
            assert(s[3] == g[3] && s[4] == g[4] && s[5] == g[5]);
        }
        assert(decode_groups_from(s, 0) == seq![x[0]] + decode_groups_from(s, 6));
        assert(seq![x[0]] + x.drop_first() =~= x);
    } else {
        assert(decode_groups_from(hex_from(x), 0) =~= x);
    }
}

/// A token made by merging stands for the bytes it was made of: reading its
/// spelling back gives them, unless they are text that itself spells byte
/// groups (`<0x41>` written out).
pub proof fn lemma_merged_spelling_decodes(bytes: Seq<u8>)
    requires
        !(valid_utf8(bytes) && is_byte_encoded(bytes)),
    ensures
        token_bytes(merged_spelling(bytes)) == bytes,
{
    if !valid_utf8(bytes) {
        assert(bytes.len() > 0);
        lemma_hex_spelling_from(bytes);
        lemma_hex_from_decodes(bytes);
        assert(hex_from(bytes).len() > 0) by {
            assert(hex_from(bytes) == byte_spelling(bytes[0]) + hex_from(bytes.drop_first()));
        }
    }
}

// ------------------------------------------------------------------
// The starting vocabulary
// ------------------------------------------------------------------

/// The UTF-8 spellings of the special tokens.
pub open spec fn special_spellings(special_tokens: Option<&[&str]>) -> Seq<Seq<u8>> {
    match special_tokens {
        Some(s) => s@.map_values(|t: &str| t.spec_bytes()),
        None => Seq::empty(),
    }
}

/// The vocabulary merging starts from: `reserved + 1` empty entries, the
/// special tokens, and the 256 byte tokens.
pub open spec fn initial_spellings(reserved: nat, specials: Seq<Seq<u8>>) -> Seq<Seq<u8>> {
    Seq::new(reserved + 1, |i: int| Seq::<u8>::empty()) + specials + Seq::new(
        256,
        |b: int| byte_spelling(b as u8),
    )
}

/// Sum of the lengths of the first `n` spellings.
pub open spec fn spelled_total(sp: Seq<Seq<u8>>, n: int) -> int
    decreases n,
{
    if n <= 0 {
        0
    } else {
        spelled_total(sp, n - 1) + sp[n - 1].len()
    }
}

/// The metadata of every vocabulary entry, the entries from `base` on
/// being mergeable.
pub open spec fn metas_of(vocab: Seq<String>, base: int) -> Seq<TokenMeta> {
    Seq::new(
        vocab.len(),
        |i: int| token_meta_spec(vocab[i]@, spelled(vocab[i]@), i >= base),
    )
}

/// Every id the dictionary or the byte fallback produces has metadata, with
/// the byte length of what it matched.
pub open spec fn dict_meta_ok(dict: Map<Seq<u8>, u32>, base: u32, meta: Seq<TokenMeta>) -> bool {
    &&& base + 256 <= meta.len()
    &&& forall|p: Seq<u8>|
        #[trigger] dict.contains_key(p) ==> (dict[p] as int) < meta.len() && meta[dict[p] as int].byte_len
            == p.len()
    &&& forall|b: int| 0 <= b < 256 ==> (#[trigger] meta[base + b]).byte_len == 1
}

/// Greedy tokenization of `b`, each id kept in 16 bits.
pub open spec fn tokenize16(dict: Map<Seq<u8>, u32>, base: u32, b: Seq<u8>) -> Seq<u16> {
    tokenize_spec(dict, base, b).map_values(|x: u32| x as u16)
}

proof fn lemma_token_bytes_len(b: Seq<u8>)
    ensures
        token_bytes(b).len() <= b.len(),
        is_byte_encoded(b) ==> token_bytes(b).len() == b.len() / 6,
{
    if is_byte_encoded(b) {
        lemma_decode_groups_len(b, 0);
    }
}

/// The metadata of an entry counts the bytes it stands for, and no more
/// words than bytes.
proof fn lemma_entry_meta(cs: Seq<char>, mergeable: bool)
    requires
        spelled(cs).len() <= 4294967295,
    ensures
        token_meta_spec(cs, spelled(cs), mergeable).byte_len == token_bytes(spelled(cs)).len(),
        token_meta_spec(cs, spelled(cs), mergeable).word_count <= token_meta_spec(
            cs,
            spelled(cs),
            mergeable,
        ).byte_len,
{
    let b = spelled(cs);
    lemma_token_bytes_len(b);
    if is_byte_encoded(b) {
        let d = decode_groups_from(b, 0);
        lemma_word_count_bound(byte_flags(d));
    } else {
        lemma_chars_le_bytes(cs);
        lemma_word_count_bound(char_flags(cs));
    }
}

proof fn lemma_byte_spelling_encoded(b: u8)
    ensures
        is_byte_encoded(byte_spelling(b)),
        token_bytes(byte_spelling(b)).len() == 1,
{
    let s = byte_spelling(b);
    assert(byte_group_at(s, 0) is Some);
    assert(byte_groups_from(s, 6));
    assert(byte_groups_from(s, 0));
    lemma_decode_groups_len(s, 0);
}

/// An entry of the dictionary is the raw bytes of an entry of the vocabulary,
/// and maps to that entry.
proof fn lemma_vocab_dict_entry(sp: Seq<Seq<u8>>, n: int, p: Seq<u8>)
    requires
        vocab_dict(sp, n).contains_key(p),
        n <= sp.len(),
        n <= 4294967296,
    ensures
        0 <= vocab_dict(sp, n)[p] < n,
        token_bytes(sp[vocab_dict(sp, n)[p] as int]) == p,
    decreases n,
{
    if n > 0 {
        let w = token_bytes(sp[n - 1]);
        if !(w.len() > 0 && w == p) {
            lemma_vocab_dict_entry(sp, n - 1, p);
        }
    }
}

proof fn lemma_spelled_total_concat(a: Seq<Seq<u8>>, b: Seq<Seq<u8>>)
    ensures
        spelled_total(a + b, (a + b).len() as int) == spelled_total(a, a.len() as int) + spelled_total(
            b,
            b.len() as int,
        ),
    decreases b.len(),
{
    if b.len() == 0 {
        assert(a + b =~= a);
    } else {
        let bp = b.drop_last();
        lemma_spelled_total_concat(a, bp);
        assert((a + b).drop_last() =~= a + bp);
        lemma_spelled_total_prefix(a + b, a + bp, (a + b).len() - 1);
        lemma_spelled_total_prefix(b, bp, b.len() - 1);
    }
}

proof fn lemma_spelled_total_prefix(s: Seq<Seq<u8>>, t: Seq<Seq<u8>>, n: int)
    requires
        0 <= n <= s.len(),
        n <= t.len(),
        forall|i: int| 0 <= i < n ==> s[i] == t[i],
    ensures
        spelled_total(s, n) == spelled_total(t, n),
    decreases n,
{
    if n > 0 {
        lemma_spelled_total_prefix(s, t, n - 1);
    }
}

proof fn lemma_token_total_le(sp: Seq<Seq<u8>>, n: int)
    requires
        0 <= n <= sp.len(),
    ensures
        total_token_bytes(sp, n) <= spelled_total(sp, n),
        0 <= spelled_total(sp, n),
    decreases n,
{
    if n > 0 {
        lemma_token_total_le(sp, n - 1);
        lemma_token_bytes_len(sp[n - 1]);
    }
}

proof fn lemma_spelled_total_each(sp: Seq<Seq<u8>>, n: int, i: int)
    requires
        0 <= i < n <= sp.len(),
    ensures
        sp[i].len() <= spelled_total(sp, n),
    decreases n,
{
    lemma_spelled_total_nonneg(sp, n - 1);
    if i < n - 1 {
        lemma_spelled_total_each(sp, n - 1, i);
    }
}

proof fn lemma_spelled_total_nonneg(sp: Seq<Seq<u8>>, n: int)
    ensures
        0 <= spelled_total(sp, n),
    decreases n,
{
    if n > 0 {
        lemma_spelled_total_nonneg(sp, n - 1);
    }
}

proof fn lemma_fixed_total(n: nat, f: spec_fn(int) -> Seq<u8>, w: int)
    requires
        forall|i: int| 0 <= i < n ==> #[trigger] f(i).len() == w,
    ensures
        spelled_total(Seq::new(n, f), n as int) == n * w,
    decreases n,
{
    if n > 0 {
        let s = Seq::new(n, f);
        let sp = Seq::new((n - 1) as nat, f);
        lemma_fixed_total((n - 1) as nat, f, w);
        lemma_spelled_total_prefix(s, sp, n - 1);
        assert(s[n - 1] == f(n - 1));
        assert(spelled_total(s, n as int) == spelled_total(s, n - 1) + s[n - 1].len());
        assert(n * w == (n - 1) * w + w) by (nonlinear_arith);
    } else {
        assert(n * w == 0) by (nonlinear_arith)
            requires
                n == 0,
        ;
    }
}


proof fn lemma_bytes_prefix(s: Seq<u16>, t: Seq<u16>, meta: Seq<TokenMeta>, n: int)
    requires
        0 <= n <= s.len(),
        n <= t.len(),
        forall|i: int| 0 <= i < n ==> s[i] == t[i],
    ensures
        bytes_before(s, meta, n) == bytes_before(t, meta, n),
    decreases n,
{
    if n > 0 {
        lemma_bytes_prefix(s, t, meta, n - 1);
    }
}

/// Bytes covered by a concatenation: those of both parts.
proof fn lemma_bytes_concat(s1: Seq<u16>, s2: Seq<u16>, meta: Seq<TokenMeta>)
    ensures
        bytes_before(s1 + s2, meta, (s1 + s2).len() as int) == bytes_before(s1, meta, s1.len() as int)
            + bytes_before(s2, meta, s2.len() as int),
    decreases s2.len(),
{
    if s2.len() == 0 {
        assert(s1 + s2 =~= s1);
    } else {
        let s2p = s2.drop_last();
        lemma_bytes_concat(s1, s2p, meta);
        lemma_bytes_prefix(s1 + s2, s1 + s2p, meta, (s1 + s2).len() - 1);
        lemma_bytes_prefix(s2, s2p, meta, s2.len() - 1);
    }
}

/// Greedy tokenization of `b` from `pos` covers exactly its bytes, with no
/// more tokens than bytes, every id having metadata.
pub proof fn lemma_tokenize_accounting(
    dict: Map<Seq<u8>, u32>,
    base: u32,
    meta: Seq<TokenMeta>,
    b: Seq<u8>,
    pos: int,
)
    requires
        dict_meta_ok(dict, base, meta),
        meta.len() <= 65536,
        0 <= pos <= b.len(),
    ensures
        ({
            let t = tokenize_from(dict, base, b, pos).map_values(|x: u32| x as u16);
            &&& bytes_before(t, meta, t.len() as int) == b.len() - pos
            &&& t.len() <= b.len() - pos
            &&& forall|i: int| 0 <= i < t.len() ==> (#[trigger] t[i] as int) < meta.len()
        }),
    decreases b.len() - pos,
{
    let ids = tokenize_from(dict, base, b, pos);
    let t = ids.map_values(|x: u32| x as u16);
    if pos < b.len() {
        let (id, k) = step_at(dict, base, b, pos);
        lemma_longest_in_bounds(dict, b, pos, b.len() - pos);
        let k0 = match_len(dict, b, pos);
        if k0 == 0 {
            assert(meta[base + b[pos]].byte_len == 1);
        } else {
            let sub = b.subrange(pos, pos + k0);
            assert(dict.contains_key(sub));
        }
        assert((id as int) < meta.len());
        assert(meta[id as int].byte_len == k);
        lemma_tokenize_accounting(dict, base, meta, b, pos + k);
        let rest = tokenize_from(dict, base, b, pos + k);
        let r16 = rest.map_values(|x: u32| x as u16);
        assert(ids == seq![id] + rest);
        let one = seq![id as u16];
        assert(t =~= one + r16);
        lemma_bytes_concat(one, r16, meta);
        assert(one[0] as int == id as int);
        assert(bytes_before(one, meta, 0) == 0);
        assert(bytes_before(one, meta, 1) == meta[id as int].byte_len);
        assert forall|i: int| 0 <= i < t.len() implies (#[trigger] t[i] as int) < meta.len() by {
            if i > 0 {
                assert(t[i] == r16[i - 1]);
            }
        }
    } else {
        assert(t.len() == 0);
    }
}


// ------------------------------------------------------------------
// The builder
// ------------------------------------------------------------------

/// The corpus as read so far: what one more chunk does to the tokens and
/// to the bytes held back. Bytes are held back as long as the longest
/// entry, since a match may continue into the next chunk; the rest is
/// tokenized.
pub open spec fn chunk_step(
    dict: Map<Seq<u8>, u32>,
    base: u32,
    keep: int,
    tokens: Seq<u16>,
    pending: Seq<u8>,
    chunk: Seq<u8>,
) -> (Seq<u16>, Seq<u8>) {
    let p = pending + chunk;
    if p.len() <= keep {
        (tokens, p)
    } else {
        let m = p.len() - keep;
        (tokens + tokenize16(dict, base, p.take(m)), p.skip(m))
    }
}

/// The corpus between merges: its tokens, the right and left links of its
/// positions, the metadata of the vocabulary so far, the pair whose merge
/// produced it, and the positions recorded for each pair.
pub type CorpusState = (Seq<u16>, Seq<u32>, Seq<u32>, Seq<TokenMeta>, u32, Map<u32, Seq<u32>>);

/// The corpus before any merge: its tokens linked in order, each pair
/// recorded at the positions that hold it, in increasing order.
pub open spec fn initial_state(corpus: Seq<u16>, meta: Seq<TokenMeta>) -> CorpusState {
    let n = corpus.len() as int;
    (
        corpus,
        initial_next(n),
        initial_prev(n),
        meta,
        0u32,
        initial_lists(edges(corpus, initial_next(n), meta), n),
    )
}

/// How many live positions of the corpus hold the pair `k`.
pub open spec fn pair_count(s: CorpusState, k: u32) -> nat {
    edge_count(edges(s.0, s.1, s.3), k)
}

/// `k` is seen at least twice and its candidate `(score, key, count)` is
/// the greatest.
pub open spec fn is_best_pair(s: CorpusState, k: u32) -> bool {
    &&& pair_count(s, k) >= 2
    &&& forall|k2: u32|
        #[trigger] pair_count(s, k2) >= 2 ==> entry_le(
            entry_for(k2, pair_count(s, k2) as u32, s.3),
            entry_for(k, pair_count(s, k) as u32, s.3),
        )
}

/// No pair is seen twice.
pub open spec fn no_repeated_pair(s: CorpusState) -> bool {
    forall|k: u32| #[trigger] pair_count(s, k) < 2
}

/// From `s` to `s2`, the best pair `(a, b)` became entry `i` of `v`: a token
/// spelling the bytes of `a` then `b`, with the fused metadata, and every
/// occurrence of the pair was merged into it, taking the positions recorded
/// for the pair newest first; the position lists of `s2` are those of `s`
/// kept up to date by that pass, compacted where it compacted them.
#[verifier::opaque]
pub open spec fn merge_step(s: CorpusState, s2: CorpusState, v: Seq<String>, i: int) -> bool {
    let k = s2.4;
    let a = pair_ids_spec(k).0;
    let b = pair_ids_spec(k).1;
    &&& is_best_pair(s, k)
    &&& (a as int) < s.3.len()
    &&& (b as int) < s.3.len()
    &&& s2.3 == s.3.push(fuse_spec(s.3[a as int], s.3[b as int]))
    &&& merged_into(s.0, s.1, s.2, s2.0, s2.1, a, b, i as u16)
    &&& (s2.0, s2.1) == scan_merge(recorded_in(s.5, k), s.0, s.1, a, b, i as u16)
    &&& replaces_pairs(live_tokens(s.0, s.1), live_tokens(s2.0, s2.1), a, b, i as u16)
    &&& exists|pre: bool, marks: Set<int>|
        #![trigger merge_pass(recorded_in(s.5, k), (s.0, s.1, s.2, pass_start(s.5.remove(k), pre, s.0, s.1, s2.3)), s2.3, a, b, i as u16, marks)]
        (s2.0, s2.1, s2.2, s2.5) == merge_pass(
            recorded_in(s.5, k),
            (s.0, s.1, s.2, pass_start(s.5.remove(k), pre, s.0, s.1, s2.3)),
            s2.3,
            a,
            b,
            i as u16,
            marks,
        )
    &&& links_ok(s2.2, s2.1)
    &&& pair_count(s2, k) == 0
    &&& spelled(v[i]@) == merged_spelling(token_bytes(spelled(v[a as int]@)) + token_bytes(
        spelled(v[b as int]@),
    ))
}

/// The corpus went through one merge step per entry of `v` from `l0` on,
/// starting from `corpus` as a fresh list with metadata `meta0`.
pub open spec fn merge_history(
    h: Seq<CorpusState>,
    corpus: Seq<u16>,
    meta0: Seq<TokenMeta>,
    v: Seq<String>,
    l0: int,
) -> bool {
    &&& h.len() == v.len() - l0 + 1
    &&& h[0].0 == corpus
    &&& h[0].1 == initial_next(corpus.len() as int)
    &&& h[0].2 == initial_prev(corpus.len() as int)
    &&& h[0].3 == meta0
    &&& h[0].5 == initial_state(corpus, meta0).5
    &&& forall|j: int| 0 <= j < h.len() ==> (#[trigger] h[j]).3.len() == l0 + j
    &&& forall|j: int| 0 <= j < h.len() - 1 ==> #[trigger] merge_step(h[j], h[j + 1], v, l0 + j)
}

/// A vocabulary under construction and the corpus read into it so far.
pub struct VocabBuilder {
    vocab: Vec<String>,
    meta: Vec<TokenMeta>,
    trie: Trie,
    byte_fallback_base: usize,
    target: usize,
    tokens: Vec<u16>,
    pending: Vec<u8>,
    total_input_bytes: u64,
}

impl VocabBuilder {
    pub closed spec fn vocab_view(&self) -> Seq<String> {
        self.vocab@
    }

    /// Size the vocabulary may grow to.
    pub closed spec fn target(&self) -> nat {
        self.target as nat
    }

    /// Tokens of the corpus read so far, but for the bytes held back.
    pub closed spec fn tokens_view(&self) -> Seq<u16> {
        self.tokens@
    }

    /// Bytes read but not tokenized yet.
    pub closed spec fn pending_view(&self) -> Seq<u8> {
        self.pending@
    }

    /// Bytes read so far.
    pub closed spec fn total(&self) -> nat {
        self.total_input_bytes as nat
    }

    /// The dictionary of the vocabulary.
    pub closed spec fn dict(&self) -> Map<Seq<u8>, u32> {
        self.trie.dict()
    }

    /// First id of the byte tokens.
    pub closed spec fn base(&self) -> u32 {
        self.byte_fallback_base as u32
    }

    /// Longest raw byte length of an entry: how many bytes are held back.
    pub closed spec fn keep(&self) -> int {
        self.trie.max_len()
    }

    pub closed spec fn wf(&self) -> bool {
        let n = self.vocab@.len();
        &&& self.meta@.len() == n
        &&& self.byte_fallback_base + 256 <= n <= self.target <= 65535
        &&& self.meta@ == metas_of(self.vocab@, self.byte_fallback_base as int)
        &&& self.trie.wf()
        &&& self.trie.dict() == vocab_dict(spellings(self.vocab@), n as int)
        &&& self.trie.base() == self.byte_fallback_base
        &&& dict_meta_ok(self.trie.dict(), self.byte_fallback_base as u32, self.meta@)
        &&& meta_ok(self.meta@)
        &&& forall|i: int|
            0 <= i < self.tokens@.len() ==> (#[trigger] self.tokens@[i] as int) < self.meta@.len()
        &&& bytes_before(self.tokens@, self.meta@, self.tokens@.len() as int) + self.pending@.len()
            == self.total_input_bytes
        &&& self.tokens@.len() + self.pending@.len() <= self.total_input_bytes
        &&& self.total_input_bytes <= MAX_CORPUS_BYTES
    }

    /// The starting vocabulary: `reserved_token_num + 1` empty entries, the
    /// special tokens, and the 256 byte tokens; room to grow by `token_num`
    /// merges. Nothing read yet.
    pub fn new(
        token_num: usize,
        reserved_token_num: usize,
        special_tokens: Option<&[&str]>,
        initial_token_capacity: usize,
    ) -> (r: VocabBuilder)
        requires
            reserved_token_num + 1 + special_spellings(special_tokens).len() + 256 + token_num <= 65535,
            spelled_total(
                special_spellings(special_tokens),
                special_spellings(special_tokens).len() as int,
            ) + 1537 <= 4294967295,
        ensures
            r.wf(),
            spellings(r.vocab_view()) == initial_spellings(
                reserved_token_num as nat,
                special_spellings(special_tokens),
            ),
            r.target() == r.vocab_view().len() + token_num,
            r.tokens_view() == Seq::<u16>::empty(),
            r.pending_view() == Seq::<u8>::empty(),
            r.total() == 0,
    {
        let special_count = match special_tokens {
            Some(s) => s.len(),
            None => 0,
        };
        let initial_vocab_size = reserved_token_num + 1 + special_count + 256;
        let target_vocab_size = initial_vocab_size + token_num;
        let mut vocab: Vec<String> = Vec::with_capacity(target_vocab_size);
        let mut i: usize = 0;
        while i < reserved_token_num + 1
            invariant
                0 <= i <= reserved_token_num + 1,
                reserved_token_num + 1 <= 65535,
                vocab@.len() == i,
                forall|j: int| 0 <= j < i ==> spelled(#[trigger] vocab@[j]@) == Seq::<u8>::empty(),
            decreases reserved_token_num + 1 - i,
        {
            vocab.push(String::new());
            i += 1;
        }
        let ghost sps = special_spellings(special_tokens);
        match special_tokens {
            Some(special) => {
                let mut j: usize = 0;
                while j < special.len()
                    invariant
                        0 <= j <= special@.len(),
                        sps == special@.map_values(|t: &str| t.spec_bytes()),
                        vocab@.len() == reserved_token_num + 1 + j,
                        forall|q: int|
                            0 <= q < reserved_token_num + 1 ==> spelled(#[trigger] vocab@[q]@)
                                == Seq::<u8>::empty(),
                        forall|q: int|
                            0 <= q < j ==> spelled(#[trigger] vocab@[reserved_token_num + 1 + q]@)
                                == sps[q],
                    decreases special@.len() - j,
                {
                    let t = special[j].to_owned();
                    vocab.push(t);
                    j += 1;
                }
            },
            None => {
                assert(sps.len() == 0);
            },
        }
        let byte_fallback_base = vocab.len();
        let ghost v1 = vocab@;
        add_byte_fallback_tokens(&mut vocab);
        let ghost init = initial_spellings(reserved_token_num as nat, sps);
        let ghost n = vocab@.len() as int;
        proof {
            assert(v1.len() == reserved_token_num + 1 + sps.len());
            assert(spellings(vocab@) =~= init) by {
                assert forall|q: int| 0 <= q < n implies #[trigger] spellings(vocab@)[q] == init[q] by {
                    let r1 = reserved_token_num + 1;
                    if q < r1 {
                        assert(vocab@[q] == v1[q]);
                        assert(spelled(v1[q]@) == Seq::<u8>::empty());
                    } else if q < byte_fallback_base {
                        let k = q - r1;
                        assert(vocab@[q] == v1[q]);
                        assert(v1[r1 + k] == v1[q]);
                        assert(spelled(v1[r1 + k]@) == sps[k]);
                        assert(init[q] == sps[k]);
                    } else {
                        let b = q - byte_fallback_base;
                        assert(vocab@[byte_fallback_base + b] == vocab@[q]);
                        assert(init[q] == byte_spelling(b as u8));
                    }
                }
            }
            let empties = Seq::new((reserved_token_num + 1) as nat, |q: int| Seq::<u8>::empty());
            let bytes = Seq::new(256, |b: int| byte_spelling(b as u8));
            lemma_fixed_total((reserved_token_num + 1) as nat, |q: int| Seq::<u8>::empty(), 0);
            lemma_fixed_total(256, |b: int| byte_spelling(b as u8), 6);
            lemma_spelled_total_concat(empties, sps);
            lemma_spelled_total_concat(empties + sps, bytes);
            assert(init == empties + sps + bytes);
            lemma_token_total_le(init, n);
        }
        let mut meta: Vec<TokenMeta> = Vec::with_capacity(target_vocab_size);
        let mut id: usize = 0;
        while id < vocab.len()
            invariant
                0 <= id <= vocab@.len(),
                n == vocab@.len(),
                spellings(vocab@) == init,
                spelled_total(init, n) + 1 <= 4294967295,
                meta@ == metas_of(vocab@, byte_fallback_base as int).take(id as int),
            decreases vocab@.len() - id,
        {
            proof {
                lemma_spelled_total_each(init, n, id as int);
                assert(init[id as int] == spelled(vocab@[id as int]@));
            }
            let m = TokenMeta::from_token(vocab[id].as_str(), id >= byte_fallback_base);
            meta.push(m);
            proof {
                assert(meta@ =~= metas_of(vocab@, byte_fallback_base as int).take(id + 1));
            }
            id += 1;
        }
        proof {
            assert(meta@ =~= metas_of(vocab@, byte_fallback_base as int));
        }
        let trie = Trie::from_vocab(vocab.as_slice(), byte_fallback_base as u32);
        let r = VocabBuilder {
            vocab,
            meta,
            trie,
            byte_fallback_base,
            target: target_vocab_size,
            tokens: Vec::with_capacity(initial_token_capacity),
            pending: Vec::new(),
            total_input_bytes: 0,
        };
        proof {
            let meta = r.meta@;
            let sp = spellings(r.vocab@);
            assert forall|q: int| 0 <= q < n implies #[trigger] meta[q].word_count <= meta[q].byte_len
                && meta[q].byte_len == token_bytes(sp[q]).len() by {
                lemma_spelled_total_each(init, n, q);
                lemma_entry_meta(r.vocab@[q]@, q >= byte_fallback_base);
            }
            assert forall|p: Seq<u8>| #[trigger] r.trie.dict().contains_key(p) implies (r.trie.dict()[p] as int)
                < meta.len() && meta[r.trie.dict()[p] as int].byte_len == p.len() by {
                lemma_vocab_dict_entry(sp, n, p);
                let q = r.trie.dict()[p] as int;
                lemma_spelled_total_each(init, n, q);
                lemma_entry_meta(r.vocab@[q]@, q >= byte_fallback_base);
            }
            assert forall|b: int| 0 <= b < 256 implies (#[trigger] meta[byte_fallback_base + b]).byte_len
                == 1 by {
                lemma_byte_spelling_encoded(b as u8);
                assert(sp[byte_fallback_base + b] == init[byte_fallback_base + b]);
            }
            assert(bytes_before(r.tokens@, meta, 0) == 0);
        }
        r
    }

    /// Reads one chunk of the corpus: it is counted, then held back with
    /// the bytes not tokenized yet, and all but the last `keep()` of those
    /// are tokenized. Fails once the corpus would pass `MAX_CORPUS_BYTES`.
    pub fn feed(&mut self, chunk: &[u8]) -> (r: Result<(), VocabError>)
        requires
            old(self).wf(),
        ensures
            r is Ok <==> old(self).total() + chunk@.len() <= MAX_CORPUS_BYTES,
            r matches Err(e) ==> e is CorpusTooLarge,
            r is Ok ==> {
                &&& final(self).wf()
                &&& final(self).vocab_view() == old(self).vocab_view()
                &&& final(self).target() == old(self).target()
                &&& final(self).dict() == old(self).dict()
                &&& final(self).base() == old(self).base()
                &&& final(self).keep() == old(self).keep()
                &&& (final(self).tokens_view(), final(self).pending_view()) == chunk_step(
                    old(self).dict(),
                    old(self).base(),
                    old(self).keep(),
                    old(self).tokens_view(),
                    old(self).pending_view(),
                    chunk@,
                )
                &&& final(self).total() == old(self).total() + chunk@.len()
            },
    {
        let read = chunk.len();
        let total = match self.total_input_bytes.checked_add(read as u64) {
            Some(t) => t,
            None => {
                return Err(VocabError::CorpusTooLarge);
            },
        };
        if total > MAX_CORPUS_BYTES {
            return Err(VocabError::CorpusTooLarge);
        }
        self.total_input_bytes = total;
        let ghost p0 = self.pending@;
        let mut i: usize = 0;
        while i < read
            invariant
                0 <= i <= read,
                read == chunk@.len(),
                self.pending@ == p0 + chunk@.take(i as int),
                self.vocab == old(self).vocab,
                self.meta == old(self).meta,
                self.trie == old(self).trie,
                self.byte_fallback_base == old(self).byte_fallback_base,
                self.target == old(self).target,
                self.tokens == old(self).tokens,
                self.total_input_bytes == total,
            decreases read - i,
        {
            self.pending.push(chunk[i]);
            proof {
                assert(chunk@.take(i + 1) == chunk@.take(i as int).push(chunk@[i as int]));
            }
            i += 1;
        }
        proof {
            assert(chunk@.take(read as int) == chunk@);
            self.trie.lemma_wf_facts();
        }
        let keep = self.trie.max_token_bytes_of();
        if self.pending.len() <= keep {
            return Ok(());
        }
        let tokenize_len = self.pending.len() - keep;
        let ghost p = self.pending@;
        let ghost t0 = self.tokens@;
        let head = vstd::slice::slice_subrange(self.pending.as_slice(), 0, tokenize_len);
        let mut ids = self.trie.tokenize_bytes_u16(head);
        let ghost ids0 = ids@;
        proof {
            assert(head@ == p.take(tokenize_len as int));
            lemma_tokenize_accounting(
                self.trie.dict(),
                self.trie.base(),
                self.meta@,
                p.take(tokenize_len as int),
                0,
            );
            lemma_bytes_concat(t0, ids@, self.meta@);
        }
        self.tokens.append(&mut ids);
        if self.tokens.len() > 4294967295usize {
            return Err(VocabError::TooManyTokens);
        }
        let mut tail: Vec<u8> = Vec::with_capacity(keep);
        let mut j: usize = tokenize_len;
        while j < self.pending.len()
            invariant
                tokenize_len <= j <= p.len(),
                self.pending@ == p,
                tail@ == p.subrange(tokenize_len as int, j as int),
                self.vocab == old(self).vocab,
                self.meta == old(self).meta,
                self.trie == old(self).trie,
                self.byte_fallback_base == old(self).byte_fallback_base,
                self.target == old(self).target,
                self.tokens@ == t0 + ids0,
                self.total_input_bytes == total,
            decreases p.len() - j,
        {
            tail.push(self.pending[j]);
            proof {
                assert(p.subrange(tokenize_len as int, j + 1) == p.subrange(tokenize_len as int, j as int).push(
                    p[j as int],
                ));
            }
            j += 1;
        }
        self.pending = tail;
        proof {
            assert(self.pending@ == p.skip(tokenize_len as int));
            assert forall|q: int| 0 <= q < self.tokens@.len() implies (#[trigger] self.tokens@[q] as int)
                < self.meta@.len() by {
                if q >= t0.len() {
                    assert(self.tokens@[q] == ids0[q - t0.len()]);
                }
            }
        }
        Ok(())
    }

    /// Tokenizes the bytes held back, then merges: while the vocabulary is
    /// below its target, the best pair (by score, then key, then count) of
    /// the corpus that is seen at least twice becomes a new token made of
    /// the bytes of its two tokens, and every occurrence is merged into it.
    /// Stops early when no pair is seen twice.
    #[verifier::spinoff_prover]
    #[verifier::rlimit(40)]
    pub fn finish(self) -> (r: Result<Vec<String>, VocabError>)
        requires
            self.wf(),
        ensures
            r matches Ok(v) ==> {
                &&& self.vocab_view().len() <= v@.len() <= self.target()
                &&& v@.take(self.vocab_view().len() as int) == self.vocab_view()
                &&& exists|h: Seq<CorpusState>|
                    {
                        &&& merge_history(
                            h,
                            self.tokens_view() + tokenize16(
                                self.dict(),
                                self.base(),
                                self.pending_view(),
                            ),
                            metas_of(self.vocab_view(), self.base() as int),
                            v@,
                            self.vocab_view().len() as int,
                        )
                        &&& (v@.len() == self.target() || no_repeated_pair(h.last()))
                    }
            },
            r matches Err(e) ==> e is TooManyPairs && (self.tokens_view() + tokenize16(
                self.dict(),
                self.base(),
                self.pending_view(),
            )).len() > MAX_PAIRS,
    {
        let ghost me = self;
        let ghost corpus_in = me.tokens_view() + tokenize16(me.dict(), me.base(), me.pending_view());
        let ghost meta_in = metas_of(me.vocab_view(), me.base() as int);
        let VocabBuilder {
            mut vocab,
            mut meta,
            trie,
            byte_fallback_base,
            target,
            mut tokens,
            pending,
            total_input_bytes,
        } = self;
        let ghost t0 = tokens@;
        if pending.len() > 0 {
            let mut ids = trie.tokenize_bytes_u16(pending.as_slice());
            let ghost ids0 = ids@;
            proof {
                lemma_tokenize_accounting(trie.dict(), trie.base(), meta@, pending@, 0);
                lemma_bytes_concat(t0, ids@, meta@);
            }
            tokens.append(&mut ids);
            proof {
                assert forall|q: int| 0 <= q < tokens@.len() implies (#[trigger] tokens@[q] as int)
                    < meta@.len() by {
                    if q >= t0.len() {
                        assert(tokens@[q] == ids0[q - t0.len()]);
                    }
                }
            }
        }
        if tokens.len() > 4294967295usize {
            proof {
                assert(false);
            }
            return Err(VocabError::TooManyTokens);
        }
        let ghost corpus = tokens@;
        let ghost meta0 = meta@;
        proof {
            if pending@.len() == 0 {
                assert(tokenize_spec(trie.dict(), trie.base(), pending@) =~= Seq::<u32>::empty());
                assert(corpus_in =~= t0);
            }
            assert(corpus == corpus_in);
            assert(meta0 == meta_in);
        }
        let ghost v0 = vocab@;
        let ghost l0 = vocab@.len() as int;
        if tokens.len() == 0 {
            proof {
                assert(vocab@.take(vocab@.len() as int) == vocab@);
                let s0: CorpusState = initial_state(corpus, meta0);
                lemma_empty_corpus(s0);
                let h = seq![s0];
                assert(merge_history(h, corpus, meta0, vocab@, l0));
                assert(h.last() == s0);
                assert(merge_history(h, corpus_in, meta_in, vocab@, l0) && no_repeated_pair(h.last()));
                assert(exists|hh: Seq<CorpusState>|
                    {
                        &&& merge_history(
                            hh,
                            me.tokens_view() + tokenize16(me.dict(), me.base(), me.pending_view()),
                            metas_of(me.vocab_view(), me.base() as int),
                            vocab@,
                            me.vocab_view().len() as int,
                        )
                        &&& (vocab@.len() == me.target() || no_repeated_pair(hh.last()))
                    });
            }
            return Ok(vocab);
        }
        let mut index = match PairIndex::build(tokens.as_slice(), meta.as_slice()) {
            Ok(index) => index,
            Err(e) => {
                return Err(e);
            },
        };
        let ghost mut h: Seq<CorpusState> = seq![
            (corpus, index.next_view(), index.prev_view(), meta0, 0u32, index.lists()),
        ];
        loop
            invariant
                index.wf(tokens@, meta@),
                vocab@.len() == meta@.len(),
                l0 <= vocab@.len() <= target,
                target <= 65535,
                meta_ok(meta@),
                vocab@.take(l0) == v0,
                merge_history(h, corpus, meta0, vocab@, l0),
                h.last().0 == tokens@,
                h.last().1 == index.next_view(),
                h.last().2 == index.prev_view(),
                h.last().3 == meta@,
                h.last().5 == index.lists(),
                tokens@.len() == corpus.len(),
                corpus == corpus_in,
                corpus_in == me.tokens_view() + tokenize16(me.dict(), me.base(), me.pending_view()),
                me == self,
                meta0 == meta_in,
                meta_in == metas_of(me.vocab_view(), me.base() as int),
                target == me.target(),
                l0 == me.vocab_view().len(),
                h[0] == initial_state(corpus, meta0),
                h.len() > 1 ==> !no_repeated_pair(h[0]),
                corpus.len() <= 4294967295,
                corpus.len() > 0,
                index.occ_total() <= 576460752303423488 + 4294967296 + (vocab@.len() - l0)
                    * 8589934592,
            ensures
                l0 <= vocab@.len() <= target,
                vocab@.take(l0) == v0,
                merge_history(h, corpus, meta0, vocab@, l0),
                vocab@.len() == target || no_repeated_pair(h.last()),
            decreases target - vocab@.len(),
        {
            if vocab.len() >= target {
                break;
            }
            let ghost s = h.last();
            proof {
                index.lemma_counts_are_pair_counts(tokens@, meta@);
                assert(links_ok(s.2, s.1) && s.1.len() == s.0.len() && s.1[0] != REMOVED && s.0.len()
                    <= MAX_CORPUS_BYTES) by {
                    index.lemma_wf_links(tokens@, meta@);
                }
            }
            let best = index.best_pair(meta.as_slice(), Ghost(tokens@));
            let (best_key, count) = match best {
                Some(pair) => pair,
                None => {
                    proof {
                        assert forall|k: u32| #[trigger] pair_count(s, k) < 2 by {
                            assert(index.count(k) < 2);
                        }
                    }
                    break;
                },
            };
            if count < 2 {
                proof {
                    assert(false);
                }
                break;
            }
            let (a, b) = pair_ids(best_key);
            proof {
                index.lemma_selected_key(tokens@, meta@, best_key);
                assert forall|k2: u32| #[trigger] pair_count(s, k2) >= 2 implies entry_le(
                    entry_for(k2, pair_count(s, k2) as u32, s.3),
                    entry_for(best_key, pair_count(s, best_key) as u32, s.3),
                ) by {
                    assert(index.count(k2) == pair_count(s, k2));
                }
                assert(is_best_pair(s, best_key));
            }
            let decoded_len = meta[a as usize].byte_len as usize + meta[b as usize].byte_len as usize;
            let mut bytes: Vec<u8> = Vec::with_capacity(decoded_len);
            append_token_bytes(vocab[a as usize].as_str(), &mut bytes);
            append_token_bytes(vocab[b as usize].as_str(), &mut bytes);
            let new_token = merged_token_string(bytes.as_slice());
            let new_meta = TokenMeta::fuse(meta[a as usize], meta[b as usize]);
            let new_id = vocab.len() as u16;
            let ghost vb = vocab@;
            let ghost mb = meta@;
            vocab.push(new_token);
            meta.push(new_meta);
            proof {
                index.lemma_extend_meta(tokens@, mb, new_meta, best_key);
                assert(meta@ == mb.push(new_meta));
                assert(vocab@.take(l0) =~= vb.take(l0));
                assert forall|t: int| 0 <= t < meta@.len() implies (#[trigger] meta@[t]).word_count
                    <= meta@[t].byte_len by {
                    if t < mb.len() {
                        assert(meta@[t] == mb[t]);
                    }
                }
            }
            let ghost next_before = index.next_view();
            let ghost prev_before = index.prev_view();
            let occ_limit = tokens.len().saturating_add(tokens.len() / 2);
            let merged = match index.merge_pair(best_key, new_id, &mut tokens, meta.as_slice(), occ_limit) {
                Ok(m) => m,
                Err(e) => {
                    proof {
                        assert((vb.len() - l0) * 8589934592 <= 65535 * 8589934592) by (nonlinear_arith)
                            requires
                                0 <= vb.len() - l0 <= 65535,
                        ;
                    }
                    return Err(e);
                },
            };
            proof {
                let li = vb.len() as int;
                let s2: CorpusState = (
                    tokens@,
                    index.next_view(),
                    index.prev_view(),
                    meta@,
                    best_key,
                    index.lists(),
                );
                index.lemma_counts_are_pair_counts(tokens@, meta@);
                index.lemma_wf_links(tokens@, meta@);
                assert(pair_count(s2, best_key) == 0);
                assert(replaces_pairs(live_tokens(s.0, s.1), live_tokens(s2.0, s2.1), a, b, new_id)) by {
                    assert(meta@[a as int] == mb[a as int] && meta@[b as int] == mb[b as int]);
                    lemma_merge_live_sequence(
                        s.0,
                        s.1,
                        s.2,
                        s2.0,
                        s2.1,
                        s2.2,
                        meta@,
                        a,
                        b,
                        new_id,
                    );
                }
                assert(vocab@[a as int] == vb[a as int]);
                assert(vocab@[b as int] == vb[b as int]);
                assert(merge_step(s, s2, vocab@, li)) by {
                    reveal(merge_step);
                }
                let h2 = h.push(s2);
                assert forall|q: int| 0 <= q < h2.len() - 1 implies #[trigger] merge_step(
                    h2[q],
                    h2[q + 1],
                    vocab@,
                    l0 + q,
                ) by {
                    if q < h.len() - 1 {
                        assert(h2[q] == h[q] && h2[q + 1] == h[q + 1]);
                        assert(merge_step(h[q], h[q + 1], vb, l0 + q));
                        lemma_merge_step_push(h[q], h[q + 1], vb, new_token, l0 + q);
                    } else {
                        assert(h2[q] == s);
                        assert(h2[q + 1] == s2);
                    }
                }
                assert forall|q: int| 0 <= q < h2.len() implies (#[trigger] h2[q]).3.len() == l0 + q by {
                    if q < h.len() {
                        assert(h2[q] == h[q]);
                    }
                }
                if h.len() == 1 {
                    assert(s == h[0]);
                    assert(pair_count(h[0], best_key) >= 2);
                }
                assert(h2[0] == h[0]);
                h = h2;
            }
        }
        proof {
            assert(merge_history(h, corpus_in, meta_in, vocab@, l0) && (vocab@.len() == target
                || no_repeated_pair(h.last())));
            assert(exists|hh: Seq<CorpusState>|
                {
                    &&& merge_history(
                        hh,
                        me.tokens_view() + tokenize16(me.dict(), me.base(), me.pending_view()),
                        metas_of(me.vocab_view(), me.base() as int),
                        vocab@,
                        me.vocab_view().len() as int,
                    )
                    &&& (vocab@.len() == me.target() || no_repeated_pair(hh.last()))
                });
        }
        Ok(vocab)
    }
}

proof fn lemma_merge_step_push(s: CorpusState, s2: CorpusState, v: Seq<String>, x: String, i: int)
    requires
        merge_step(s, s2, v, i),
        0 <= i < v.len(),
        s.3.len() == i,
    ensures
        merge_step(s, s2, v.push(x), i),
{
    reveal(merge_step);
    let w = v.push(x);
    let a = pair_ids_spec(s2.4).0 as int;
    let b = pair_ids_spec(s2.4).1 as int;
    assert(w[i] == v[i] && w[a] == v[a] && w[b] == v[b]);
}

/// An empty corpus has no pairs.
proof fn lemma_empty_corpus(s: CorpusState)
    requires
        s.1.len() == 0,
    ensures
        no_repeated_pair(s),
{
    broadcast use {vstd::seq_lib::group_to_multiset_ensures, vstd::multiset::group_multiset_properties};

    assert forall|k: u32| #[trigger] pair_count(s, k) < 2 by {
        let e = edges(s.0, s.1, s.3);
        assert(e.len() == 0);
        assert(e.to_multiset().count(Some(k)) <= e.to_multiset().len());
    }
}

} // verus!
