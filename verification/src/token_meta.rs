//! Per-token facts that decide which adjacent pairs may merge: byte length,
//! number of words, and whether the token starts and ends inside a word.
use vstd::prelude::*;
use vstd::string::StringSliceAdditionalSpecFns;
use crate::byte_token::{self, parse_byte_group};

verus! {

/// The Unicode `White_Space` property, which `char::is_whitespace` tests:
/// U+0009 to U+000D, U+0020, U+0085, U+00A0, U+1680, U+2000 to U+200A,
/// U+2028, U+2029, U+202F, U+205F and U+3000.
pub open spec fn char_is_whitespace(c: char) -> bool {
    let u = c as u32;
    ||| 0x09 <= u <= 0x0d
    ||| u == 0x20
    ||| u == 0x85
    ||| u == 0xa0
    ||| u == 0x1680
    ||| 0x2000 <= u <= 0x200a
    ||| u == 0x2028
    ||| u == 0x2029
    ||| u == 0x202f
    ||| u == 0x205f
    ||| u == 0x3000
}

/// `u8::is_ascii_whitespace`: space, tab, line feed, form feed, carriage return.
pub open spec fn ascii_whitespace(b: u8) -> bool {
    b == 32 || b == 9 || b == 10 || b == 12 || b == 13
}

/// Number of words in a run of units, a word being a maximal run of
/// non-whitespace units (`ws[i]` tells whether unit `i` is whitespace).
pub open spec fn words_in(ws: Seq<bool>) -> nat
    decreases ws.len(),
{
    if ws.len() == 0 {
        0
    } else {
        let prev = ws.drop_last();
        words_in(prev) + if !ws.last() && (prev.len() == 0 || prev.last()) {
            1nat
        } else {
            0nat
        }
    }
}

pub open spec fn starts_in_word(ws: Seq<bool>) -> bool {
    ws.len() > 0 && !ws[0]
}

pub open spec fn ends_in_word(ws: Seq<bool>) -> bool {
    ws.len() > 0 && !ws.last()
}

/// Whitespace flags of the characters of a text token.
pub open spec fn char_flags(cs: Seq<char>) -> Seq<bool> {
    cs.map_values(|c: char| char_is_whitespace(c))
}

/// Whitespace flags of the bytes of a byte-spelled token.
pub open spec fn byte_flags(bs: Seq<u8>) -> Seq<bool> {
    bs.map_values(|b: u8| ascii_whitespace(b))
}

#[derive(Clone, Copy)]
pub struct TokenMeta {
    pub byte_len: u32,
    pub word_count: u32,
    pub starts_non_ws: bool,
    pub ends_non_ws: bool,
    pub mergeable: bool,
}

/// The metadata of a token made of units with whitespace flags `ws` and
/// `byte_len` bytes.
pub open spec fn meta_of(ws: Seq<bool>, byte_len: u32, mergeable: bool) -> TokenMeta {
    TokenMeta {
        byte_len,
        word_count: words_in(ws) as u32,
        starts_non_ws: starts_in_word(ws),
        ends_non_ws: ends_in_word(ws),
        mergeable,
    }
}

/// The metadata of a vocabulary entry spelled `b` (of characters `cs`).
pub open spec fn token_meta_spec(cs: Seq<char>, b: Seq<u8>, mergeable: bool) -> TokenMeta {
    if byte_token::is_byte_encoded(b) {
        meta_of(
            byte_flags(byte_token::decode_groups_from(b, 0)),
            (b.len() / 6) as u32,
            mergeable,
        )
    } else {
        meta_of(char_flags(cs), b.len() as u32, mergeable)
    }
}

/// The metadata of the concatenation of two tokens.
pub open spec fn fuse_spec(a: TokenMeta, b: TokenMeta) -> TokenMeta {
    let merges_words = a.ends_non_ws && b.starts_non_ws && a.word_count > 0 && b.word_count > 0;
    TokenMeta {
        byte_len: (a.byte_len + b.byte_len) as u32,
        word_count: (a.word_count + b.word_count - if merges_words {
            1int
        } else {
            0int
        }) as u32,
        starts_non_ws: if a.byte_len != 0 {
            a.starts_non_ws
        } else {
            b.starts_non_ws
        },
        ends_non_ws: if b.byte_len != 0 {
            b.ends_non_ws
        } else {
            a.ends_non_ws
        },
        mergeable: a.mergeable && b.mergeable,
    }
}

/// Two tokens may merge when both are mergeable and together they span at
/// most one word.
pub open spec fn valid_fusion_spec(a: TokenMeta, b: TokenMeta) -> bool {
    a.mergeable && b.mergeable && fuse_spec(a, b).word_count <= 1
}

pub proof fn lemma_word_count_bound(ws: Seq<bool>)
    ensures
        words_in(ws) <= ws.len(),
        ends_in_word(ws) ==> words_in(ws) > 0,
        starts_in_word(ws) ==> words_in(ws) > 0,
    decreases ws.len(),
{
    if ws.len() > 0 {
        lemma_word_count_bound(ws.drop_last());
        if ws.len() > 1 {
            assert(ws.drop_last()[0] == ws[0]);
        }
    }
}

/// Words of a concatenation: those of both parts, less one when the first
/// ends inside a word and the second starts inside one.
pub proof fn lemma_word_count_concat(w1: Seq<bool>, w2: Seq<bool>)
    ensures
        words_in(w1 + w2) == words_in(w1) + words_in(w2) - if ends_in_word(w1)
            && starts_in_word(w2) {
            1int
        } else {
            0int
        },
    decreases w2.len(),
{
    if w2.len() == 0 {
        assert(w1 + w2 =~= w1);
    } else {
        let w2p = w2.drop_last();
        lemma_word_count_concat(w1, w2p);
        assert((w1 + w2).drop_last() =~= w1 + w2p);
        lemma_word_count_bound(w1);
        if w2p.len() == 0 {
            assert(w2.drop_last() =~= w2p);
        }
    }
}

/// The metadata of a concatenation is the fusion of the parts' metadata.
pub proof fn lemma_fuse_concat(
    w1: Seq<bool>,
    l1: u32,
    m1: bool,
    w2: Seq<bool>,
    l2: u32,
    m2: bool,
)
    requires
        (l1 == 0) == (w1.len() == 0),
        (l2 == 0) == (w2.len() == 0),
        l1 + l2 <= 4294967295,
        w1.len() + w2.len() <= 4294967295,
    ensures
        fuse_spec(meta_of(w1, l1, m1), meta_of(w2, l2, m2)) == meta_of(
            w1 + w2,
            (l1 + l2) as u32,
            m1 && m2,
        ),
{
    lemma_word_count_concat(w1, w2);
    lemma_word_count_bound(w1);
    lemma_word_count_bound(w2);
    lemma_word_count_bound(w1 + w2);
    if w1.len() > 0 {
        assert((w1 + w2)[0] == w1[0]);
    }
    if w2.len() > 0 {
        assert((w1 + w2).last() == w2.last());
    } else {
        assert(w1 + w2 =~= w1);
    }
    if w1.len() == 0 {
        assert(w1 + w2 =~= w2);
    }
    let f = fuse_spec(meta_of(w1, l1, m1), meta_of(w2, l2, m2));
    let g = meta_of(w1 + w2, (l1 + l2) as u32, m1 && m2);
    lemma_word_count_bound(w1 + w2);
    assert(words_in(w1) as u32 == words_in(w1));
    assert(words_in(w2) as u32 == words_in(w2));
    assert(f.word_count == g.word_count);
    assert(f.starts_non_ws == g.starts_non_ws);
    assert(f.ends_non_ws == g.ends_non_ws);
    assert(f.byte_len == g.byte_len);
}

/// Law: a token spelling one byte `<0xHL>` is one byte long and holds no
/// word exactly when the byte is ASCII whitespace as `u8::is_ascii_whitespace`
/// documents it (horizontal tab 0x09, line feed 0x0A, form feed 0x0C, carriage
/// return 0x0D, space 0x20): among bytes below 0x80, the characters with the
/// Unicode `White_Space` property less vertical tab 0x0B. Any other byte is a
/// word by itself, which the token starts and ends inside.
pub proof fn lemma_single_byte_token_words(s: Seq<u8>, cs: Seq<char>, mergeable: bool, b: u8)
    requires
        byte_token::byte_token_value(s) == Some(b),
    ensures
        token_meta_spec(cs, s, mergeable).byte_len == 1,
        token_meta_spec(cs, s, mergeable).word_count == 0 <==> (b == 0x0A || b == 0x09 || b == 0x20
            || b == 0x0D || b == 0x0C),
        token_meta_spec(cs, s, mergeable).word_count == 0 <==> (b < 0x80 && b != 0x0B
            && char_is_whitespace(b as char)),
        token_meta_spec(cs, s, mergeable).word_count <= 1,
        token_meta_spec(cs, s, mergeable).starts_non_ws == (token_meta_spec(cs, s, mergeable).word_count
            == 1),
        token_meta_spec(cs, s, mergeable).ends_non_ws == (token_meta_spec(cs, s, mergeable).word_count
            == 1),
        token_meta_spec(cs, s, mergeable).mergeable == mergeable,
{
    assert(byte_token::byte_groups_from(s, 6));
    assert(byte_token::byte_groups_from(s, 0));
    assert(byte_token::is_byte_encoded(s));
    assert(byte_token::decode_groups_from(s, 6) =~= Seq::<u8>::empty());
    let d = byte_token::decode_groups_from(s, 0);
    assert(d =~= seq![b]);
    let w = byte_flags(d);
    assert(w =~= seq![ascii_whitespace(b)]);
    assert(w.drop_last() =~= Seq::<bool>::empty());
    assert(words_in(w.drop_last()) == 0);
    assert((b as char) as u32 == b as u32);
}

/// Law: a text token of one character holds no word exactly when the
/// character is Unicode whitespace (`char::is_whitespace`): U+0009 to U+000D,
/// U+0020, U+0085, U+00A0, U+1680, U+2000 to U+200A, U+2028, U+2029, U+202F,
/// U+205F or U+3000. Any other character is a word, which the token starts
/// and ends inside.
pub proof fn lemma_single_char_token_words(c: char, b: Seq<u8>, mergeable: bool)
    requires
        !byte_token::is_byte_encoded(b),
        b.len() <= 4294967295,
    ensures
        token_meta_spec(seq![c], b, mergeable).word_count == 0 <==> ({
            let u = c as u32;
            u == 0x20 || u == 0x3000 || u == 0x205f || u == 0x202f || u == 0x2029 || u == 0x2028
                || (0x2000 <= u && u <= 0x200a) || u == 0x1680 || u == 0xa0 || u == 0x85 || (0x09
                <= u && u <= 0x0d)
        }),
        token_meta_spec(seq![c], b, mergeable).word_count <= 1,
        token_meta_spec(seq![c], b, mergeable).starts_non_ws == (token_meta_spec(
            seq![c],
            b,
            mergeable,
        ).word_count == 1),
        token_meta_spec(seq![c], b, mergeable).ends_non_ws == (token_meta_spec(
            seq![c],
            b,
            mergeable,
        ).word_count == 1),
        token_meta_spec(seq![c], b, mergeable).byte_len == b.len(),
{
    let w = char_flags(seq![c]);
    assert(w =~= seq![char_is_whitespace(c)]);
    assert(w.drop_last() =~= Seq::<bool>::empty());
    assert(words_in(w.drop_last()) == 0);
    assert(words_in(w) == if char_is_whitespace(c) {
        0nat
    } else {
        1nat
    });
    assert(token_meta_spec(seq![c], b, mergeable) == meta_of(w, b.len() as u32, mergeable));
}

/// Law: two tokens may merge exactly when both may and the text they make
/// together spans at most one word.
pub proof fn lemma_valid_fusion_words(
    w1: Seq<bool>,
    l1: u32,
    m1: bool,
    w2: Seq<bool>,
    l2: u32,
    m2: bool,
)
    requires
        (l1 == 0) == (w1.len() == 0),
        (l2 == 0) == (w2.len() == 0),
        l1 + l2 <= 4294967295,
        w1.len() + w2.len() <= 4294967295,
    ensures
        valid_fusion_spec(meta_of(w1, l1, m1), meta_of(w2, l2, m2)) <==> m1 && m2 && words_in(w1 + w2)
            <= 1,
{
    lemma_fuse_concat(w1, l1, m1, w2, l2, m2);
    lemma_word_count_bound(w1 + w2);
}

/// Whether `c` has the Unicode `White_Space` property, as
/// `char::is_whitespace` tests.
fn is_whitespace_char(c: char) -> (r: bool)
    ensures
        r == char_is_whitespace(c),
{
    let u = c as u32;
    (0x09 <= u && u <= 0x0d) || u == 0x20 || u == 0x85 || u == 0xa0 || u == 0x1680 || (0x2000 <= u
        && u <= 0x200a) || u == 0x2028 || u == 0x2029 || u == 0x202f || u == 0x205f || u == 0x3000
}

impl TokenMeta {
    /// Counts words over the characters of a text token, or over the bytes a
    /// byte-spelled token stands for.
    pub fn from_token(token: &str, mergeable: bool) -> (r: TokenMeta)
        requires
            token.spec_bytes().len() <= 4294967295,
        ensures
            r == token_meta_spec(token@, token.spec_bytes(), mergeable),
            byte_token::byte_token_value(token.spec_bytes()) matches Some(v) ==> r.byte_len == 1 && (
            r.word_count == 0 <==> (v == 0x0A || v == 0x09 || v == 0x20 || v == 0x0D || v == 0x0C))
                && r.starts_non_ws == (r.word_count == 1) && r.ends_non_ws == (r.word_count == 1),
    {
        proof {
            if let Some(v) = byte_token::byte_token_value(token.spec_bytes()) {
                lemma_single_byte_token_words(token.spec_bytes(), token@, mergeable, v);
            }
        }
        let bytes = token.as_bytes();
        if !byte_token::is_byte_encoded_bytes(bytes) {
            let mut word_count: u32 = 0;
            let mut in_word = false;
            let mut starts_non_ws = false;
            let mut ends_non_ws = false;
            let mut first = true;
            let ghost cs = token@;
            proof {
                vstd::utf8::encode_utf8_valid_utf8(cs);
                lemma_chars_le_bytes(cs);
            }
            for ch in it: token.chars()
                invariant
                    cs == token@,
                    cs.len() <= 4294967295,
                    it.seq() == cs,
                    word_count as nat == words_in(char_flags(cs.subrange(0, it.index() as int))),
                    word_count <= it.index(),
                    in_word == ends_in_word(char_flags(cs.subrange(0, it.index() as int))),
                    ends_non_ws == in_word,
                    starts_non_ws == starts_in_word(char_flags(cs.subrange(0, it.index() as int))),
                    first == (it.index() == 0),
            {
                let ghost k = it.index();
                let ghost prev = char_flags(cs.subrange(0, k as int));
                let ghost next = char_flags(cs.subrange(0, k + 1));
                proof {
                    assert(next.drop_last() =~= prev);
                    assert(next.last() == char_is_whitespace(ch));
                    if k > 0 {
                        assert(next[0] == prev[0]);
                    }
                }
                if is_whitespace_char(ch) {
                    in_word = false;
                    ends_non_ws = false;
                } else {
                    if first {
                        starts_non_ws = true;
                    }
                    if !in_word {
                        word_count += 1;
                        in_word = true;
                    }
                    ends_non_ws = true;
                }
                first = false;
            }
            proof {
                assert(cs.subrange(0, cs.len() as int) =~= cs);
            }
            return TokenMeta {
                byte_len: bytes.len() as u32,
                word_count,
                starts_non_ws,
                ends_non_ws,
                mergeable,
            };
        }
        let mut word_count: u32 = 0;
        let mut in_word = false;
        let mut starts_non_ws = false;
        let mut ends_non_ws = false;
        let mut first = true;
        let mut pos: usize = 0;
        let ghost b = bytes@;
        proof {
            byte_token::lemma_decode_groups_len(b, 0);
            assert(byte_token::decode_groups_from(b, 0).subrange(0, 0) + byte_token::decode_groups_from(b, 0) =~= byte_token::decode_groups_from(b, 0));
        }
        while pos < bytes.len()
            invariant
                b == bytes@,
                b.len() <= 4294967295,
                byte_token::byte_groups_from(b, 0),
                byte_token::byte_groups_from(b, pos as int),
                pos <= b.len(),
                pos % 6 == 0,
                byte_token::decode_groups_from(b, 0) == byte_token::decode_groups_from(
                    b,
                    0,
                ).subrange(0, (pos / 6) as int) + byte_token::decode_groups_from(b, pos as int),
                byte_token::decode_groups_from(b, 0).len() * 6 == b.len(),
                word_count as nat == words_in(
                    byte_flags(byte_token::decode_groups_from(b, 0).subrange(0, (pos / 6) as int)),
                ),
                word_count <= pos / 6,
                in_word == ends_in_word(
                    byte_flags(byte_token::decode_groups_from(b, 0).subrange(0, (pos / 6) as int)),
                ),
                ends_non_ws == in_word,
                starts_non_ws == starts_in_word(
                    byte_flags(byte_token::decode_groups_from(b, 0).subrange(0, (pos / 6) as int)),
                ),
                first == (pos == 0),
            decreases bytes.len() - pos,
        {
            let byte = match parse_byte_group(bytes, pos) {
                Some(v) => v,
                None => {
                    assert(false);
                    0
                },
            };
            let ghost d = byte_token::decode_groups_from(b, 0);
            let ghost k = (pos / 6) as int;
            proof {
                assert(byte_token::decode_groups_from(b, pos as int) == seq![byte]
                    + byte_token::decode_groups_from(b, pos + 6));
                assert(d[k] == byte);
                let prev = byte_flags(d.subrange(0, k));
                let next = byte_flags(d.subrange(0, k + 1));
                assert(next.drop_last() =~= prev);
                if k > 0 {
                    assert(next[0] == prev[0]);
                }
                assert(d.subrange(0, ((pos + 6) / 6) as int) + byte_token::decode_groups_from(b, pos + 6)
                    =~= d);
            }
            if byte == 32u8 || byte == 9u8 || byte == 10u8 || byte == 12u8 || byte == 13u8 {
                in_word = false;
                ends_non_ws = false;
            } else {
                if first {
                    starts_non_ws = true;
                }
                if !in_word {
                    word_count += 1;
                    in_word = true;
                }
                ends_non_ws = true;
            }
            first = false;
            pos += 6;
        }
        proof {
            let d = byte_token::decode_groups_from(b, 0);
            assert(d.subrange(0, (pos / 6) as int) =~= d);
        }
        TokenMeta {
            byte_len: (bytes.len() / 6) as u32,
            word_count,
            starts_non_ws,
            ends_non_ws,
            mergeable,
        }
    }

    /// The metadata of two adjacent tokens merged into one.
    pub fn fuse(a: TokenMeta, b: TokenMeta) -> (r: TokenMeta)
        requires
            a.byte_len + b.byte_len <= 4294967295,
            a.word_count + b.word_count <= 4294967295,
        ensures
            r == fuse_spec(a, b),
    {
        let merges_words = a.ends_non_ws && b.starts_non_ws && a.word_count > 0 && b.word_count > 0;
        TokenMeta {
            byte_len: a.byte_len + b.byte_len,
            word_count: a.word_count + b.word_count - if merges_words {
                1
            } else {
                0
            },
            starts_non_ws: if a.byte_len != 0 {
                a.starts_non_ws
            } else {
                b.starts_non_ws
            },
            ends_non_ws: if b.byte_len != 0 {
                b.ends_non_ws
            } else {
                a.ends_non_ws
            },
            mergeable: a.mergeable && b.mergeable,
        }
    }

    /// Whether two adjacent tokens may merge.
    pub fn valid_fusion(a: TokenMeta, b: TokenMeta) -> (r: bool)
        requires
            a.byte_len + b.byte_len <= 4294967295,
            a.word_count + b.word_count <= 4294967295,
        ensures
            r == valid_fusion_spec(a, b),
    {
        a.mergeable && b.mergeable && Self::fuse(a, b).word_count <= 1
    }
}

/// A UTF-8 text has no more characters than bytes.
pub proof fn lemma_chars_le_bytes(cs: Seq<char>)
    ensures
        cs.len() <= vstd::utf8::encode_utf8(cs).len(),
    decreases cs.len(),
{
    if cs.len() > 0 {
        vstd::utf8::encode_utf8_first_scalar(cs);
        lemma_chars_le_bytes(cs.drop_first());
        assert(vstd::utf8::pop_first_scalar(vstd::utf8::encode_utf8(cs)) =~= vstd::utf8::encode_utf8(cs.drop_first()));
        vstd::utf8::encode_utf8_valid_utf8(cs);
    }
}

} // verus!
