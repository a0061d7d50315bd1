//! Turning generated vocabulary entries back into text: `<0xHL>` markers are
//! collected into bytes and emitted once they form UTF-8, ordinary text is
//! copied as it stands.
use vstd::prelude::*;
use vstd::string::StringSliceAdditionalSpecFns;
use vstd::utf8::{decode_utf8, encode_utf8, is_char_boundary, valid_utf8};
use crate::byte_token::{self, hex_value};
use crate::vocab::{byte_spelling, hex_spelling, hex_upper_spec};

verus! {

/// Result of `String::from_utf8_lossy`: the bytes decoded as UTF-8, each
/// ill-formed part replaced by U+FFFD.
pub uninterp spec fn utf8_lossy(bytes: Seq<u8>) -> Seq<char>;

/// What `u8::from_str_radix(s, 16)` gives for the two-byte string `c1 c2`:
/// an optional leading `+` followed by one digit, or two hex digits.
pub open spec fn radix16_pair(c1: u8, c2: u8) -> Option<u8> {
    if c1 == 43 {
        byte_token::hex_digit_value(c2)
    } else if byte_token::hex_digit_value(c1) is Some && byte_token::hex_digit_value(c2) is Some {
        Some(
            (byte_token::hex_digit_value(c1)->0 * 16 + byte_token::hex_digit_value(c2)->0) as u8,
        )
    } else {
        None
    }
}

/// The byte spelled by a `<0x..>` marker at `i` inside one entry, if any.
pub open spec fn marker_at(b: Seq<u8>, i: int) -> Option<u8> {
    if 0 <= i && i + 5 < b.len() && b[i] == 60 && b[i + 1] == 48 && b[i + 2] == 120 && b[i + 5]
        == 62 {
        radix16_pair(b[i + 3], b[i + 4])
    } else {
        None
    }
}

/// Pending marker bytes written out as they stand, if there are any.
pub open spec fn flush(buf: Seq<u8>) -> Seq<char> {
    if buf.len() > 0 {
        utf8_lossy(buf)
    } else {
        Seq::empty()
    }
}

/// Scanning the entry `b` from `i`, with ordinary text pending since
/// `text_start`, output `out` so far and marker bytes `buf` not yet emitted:
/// the final output and the marker bytes still held.
pub open spec fn stream_scan(b: Seq<u8>, i: int, text_start: int, out: Seq<char>, buf: Seq<u8>) -> (
    Seq<char>,
    Seq<u8>,
)
    decreases b.len() - i,
{
    if i < 0 || i >= b.len() {
        if 0 <= text_start < b.len() {
            (out + flush(buf) + decode_utf8(b.subrange(text_start, b.len() as int)), Seq::empty())
        } else {
            (out, buf)
        }
    } else {
        match marker_at(b, i) {
            Some(x) => {
                let (out1, buf1) = if text_start < i {
                    (out + flush(buf) + decode_utf8(b.subrange(text_start, i)), Seq::<u8>::empty())
                } else {
                    (out, buf)
                };
                let buf2 = buf1.push(x);
                let (out3, buf3) = if valid_utf8(buf2) {
                    (out1 + decode_utf8(buf2), Seq::<u8>::empty())
                } else {
                    (out1, buf2)
                };
                stream_scan(b, i + 6, i + 6, out3, buf3)
            },
            None => stream_scan(b, i + 1, text_start, out, buf),
        }
    }
}

/// The text that one entry adds to a stream whose held marker bytes are
/// `buf`, and the marker bytes held after it.
pub open spec fn stream_step(b: Seq<u8>, buf: Seq<u8>) -> (Seq<char>, Seq<u8>) {
    stream_scan(b, 0, 0, Seq::empty(), buf)
}

/// Streaming the first `n` entries from an empty buffer: all text emitted and
/// the marker bytes still held.
pub open spec fn stream_tokens(tokens: Seq<Seq<u8>>, n: int) -> (Seq<char>, Seq<u8>)
    decreases n,
{
    if n <= 0 {
        (Seq::empty(), Seq::empty())
    } else {
        let (out, buf) = stream_tokens(tokens, n - 1);
        let (o2, b2) = stream_step(tokens[n - 1], buf);
        (out + o2, b2)
    }
}

/// The text of a whole sequence of entries.
pub open spec fn decode_stream(tokens: Seq<Seq<u8>>) -> Seq<char> {
    let (out, buf) = stream_tokens(tokens, tokens.len() as int);
    out + flush(buf)
}

/// The texts of `outs`, one after the other.
pub open spec fn joined(outs: Seq<Seq<char>>) -> Seq<char>
    decreases outs.len(),
{
    if outs.len() == 0 {
        Seq::empty()
    } else {
        joined(outs.drop_last()) + outs.last()
    }
}

/// Law: streaming entries one at a time from an empty buffer, then writing
/// out the bytes still held, gives the text that decoding all of them at once
/// gives. `outs[i]` is what the `i`-th call returned, and `bufs[i + 1]` the
/// buffer it left.
pub proof fn lemma_streaming_matches_batch(
    tokens: Seq<Seq<char>>,
    outs: Seq<Seq<char>>,
    bufs: Seq<Seq<u8>>,
)
    requires
        outs.len() == tokens.len(),
        bufs.len() == tokens.len() + 1,
        bufs[0] == Seq::<u8>::empty(),
        forall|i: int|
            0 <= i < tokens.len() ==> (outs[i], bufs[i + 1]) == #[trigger] stream_step(
                byte_token::spelled(tokens[i]),
                bufs[i],
            ),
    ensures
        joined(outs) + flush(bufs.last()) == decode_stream(
            tokens.map_values(|s: Seq<char>| byte_token::spelled(s)),
        ),
{
    let sp = tokens.map_values(|s: Seq<char>| byte_token::spelled(s));
    lemma_stream_prefix(tokens, outs, bufs, tokens.len() as int);
    assert(outs.subrange(0, outs.len() as int) =~= outs);
}

proof fn lemma_stream_prefix(tokens: Seq<Seq<char>>, outs: Seq<Seq<char>>, bufs: Seq<Seq<u8>>, n: int)
    requires
        0 <= n <= tokens.len(),
        outs.len() == tokens.len(),
        bufs.len() == tokens.len() + 1,
        bufs[0] == Seq::<u8>::empty(),
        forall|i: int|
            0 <= i < tokens.len() ==> (outs[i], bufs[i + 1]) == #[trigger] stream_step(
                byte_token::spelled(tokens[i]),
                bufs[i],
            ),
    ensures
        stream_tokens(tokens.map_values(|s: Seq<char>| byte_token::spelled(s)), n) == (
        joined(outs.subrange(0, n)),
        bufs[n],
        ),
    decreases n,
{
    if n > 0 {
        lemma_stream_prefix(tokens, outs, bufs, n - 1);
        assert(outs.subrange(0, n).drop_last() =~= outs.subrange(0, n - 1));
        assert(stream_step(byte_token::spelled(tokens[n - 1]), bufs[n - 1]) == (outs[n - 1], bufs[n]));
    } else {
        assert(outs.subrange(0, 0) =~= Seq::<Seq<char>>::empty());
    }
}

/// Some `<0x` starts inside `b`.
pub open spec fn has_marker_start(b: Seq<u8>) -> bool {
    exists|i: int| 0 <= i && i + 2 < b.len() && #[trigger] b[i] == 60 && b[i + 1] == 48 && b[i + 2] == 120
}

/// Without a `<0x` from `i` on, the scan writes out the rest as text.
proof fn lemma_scan_plain(b: Seq<u8>, i: int, text_start: int, out: Seq<char>, buf: Seq<u8>)
    requires
        !has_marker_start(b),
        0 <= i,
    ensures
        stream_scan(b, i, text_start, out, buf) == stream_scan(b, b.len() as int, text_start, out, buf),
    decreases b.len() - i,
{
    if i < b.len() {
        if b[i] == 60 && i + 5 < b.len() && b[i + 1] == 48 && b[i + 2] == 120 {
            assert(has_marker_start(b));
        }
        assert(marker_at(b, i) is None);
        lemma_scan_plain(b, i + 1, text_start, out, buf);
    }
}

/// Law: entries that hold no `<0x` decode to their text, one after the
/// other.
pub proof fn lemma_plain_text_decodes(tokens: Seq<Seq<char>>)
    requires
        forall|j: int| 0 <= j < tokens.len() ==> !has_marker_start(#[trigger] byte_token::spelled(tokens[j])),
    ensures
        decode_stream(tokens.map_values(|s: Seq<char>| byte_token::spelled(s))) == joined(tokens),
{
    lemma_plain_prefix(tokens, tokens.len() as int);
    assert(tokens.subrange(0, tokens.len() as int) =~= tokens);
    assert(flush(Seq::<u8>::empty()) =~= Seq::<char>::empty());
}

proof fn lemma_plain_prefix(tokens: Seq<Seq<char>>, n: int)
    requires
        0 <= n <= tokens.len(),
        forall|j: int| 0 <= j < tokens.len() ==> !has_marker_start(#[trigger] byte_token::spelled(tokens[j])),
    ensures
        stream_tokens(tokens.map_values(|s: Seq<char>| byte_token::spelled(s)), n) == (
        joined(tokens.subrange(0, n)),
        Seq::<u8>::empty(),
        ),
    decreases n,
{
    if n > 0 {
        lemma_plain_prefix(tokens, n - 1);
        assert(tokens.subrange(0, n).drop_last() =~= tokens.subrange(0, n - 1));
        let s = tokens[n - 1];
        let b = byte_token::spelled(s);
        assert(!has_marker_start(b));
        lemma_scan_plain(b, 0, 0, Seq::empty(), Seq::empty());
        vstd::utf8::encode_utf8_decode_utf8(s);
        assert(flush(Seq::<u8>::empty()) =~= Seq::<char>::empty());
        if b.len() > 0 {
            assert(b.subrange(0, b.len() as int) =~= b);
            assert(Seq::<char>::empty() + Seq::<char>::empty() + decode_utf8(b) =~= s);
        } else {
            assert(b =~= Seq::<u8>::empty());
            assert(s =~= Seq::<char>::empty()) by {
                assert(decode_utf8(Seq::<u8>::empty()) =~= Seq::<char>::empty());
            }
        }
        assert(joined(tokens.subrange(0, n - 1)) + stream_step(b, Seq::empty()).0 =~= joined(
            tokens.subrange(0, n),
        ));
    } else {
        assert(tokens.subrange(0, 0) =~= Seq::<Seq<char>>::empty());
    }
}

/// Taking marker bytes one at a time from the held bytes `buf`: each is
/// held, and the held bytes are written out as soon as they form UTF-8.
/// The text written and the bytes still held.
pub open spec fn feed_bytes(t: Seq<u8>, buf: Seq<u8>) -> (Seq<char>, Seq<u8>)
    decreases t.len(),
{
    if t.len() == 0 {
        (Seq::empty(), buf)
    } else {
        let b2 = buf.push(t[0]);
        if valid_utf8(b2) {
            let (o, r) = feed_bytes(t.drop_first(), Seq::empty());
            (decode_utf8(b2) + o, r)
        } else {
            feed_bytes(t.drop_first(), b2)
        }
    }
}

/// A proper prefix of a character's encoding is not UTF-8.
proof fn lemma_partial_scalar_invalid(t: Seq<u8>, j: int)
    requires
        vstd::utf8::valid_first_scalar(t),
        1 <= j < vstd::utf8::length_of_first_scalar(t),
    ensures
        !valid_utf8(t.subrange(0, j)),
{
    let p = t.subrange(0, j);
    assert(p[0] == t[0]);
}

/// The encoding of the first character is UTF-8 on its own, standing for
/// that character.
proof fn lemma_first_scalar_alone(t: Seq<u8>)
    requires
        t.len() > 0,
        valid_utf8(t),
    ensures
        valid_utf8(t.subrange(0, vstd::utf8::length_of_first_scalar(t))),
        decode_utf8(t.subrange(0, vstd::utf8::length_of_first_scalar(t))) == seq![
            vstd::utf8::decode_first_scalar(t) as char,
        ],
{
    let l = vstd::utf8::length_of_first_scalar(t);
    let p = t.subrange(0, l);
    assert(p[0] == t[0]);
    if l >= 2 {
        assert(p[1] == t[1]);
    }
    if l >= 3 {
        assert(p[2] == t[2]);
    }
    if l >= 4 {
        assert(p[3] == t[3]);
    }
    assert(vstd::utf8::valid_first_scalar(p));
    assert(vstd::utf8::decode_first_scalar(p) == vstd::utf8::decode_first_scalar(t));
    let e = vstd::utf8::pop_first_scalar(p);
    assert(e =~= Seq::<u8>::empty());
    assert(valid_utf8(e));
    assert(decode_utf8(e) =~= Seq::<char>::empty());
    assert(valid_utf8(p));
    assert(decode_utf8(p) == seq![vstd::utf8::decode_first_scalar(p) as char] + decode_utf8(e));
    assert(decode_utf8(p) =~= seq![vstd::utf8::decode_first_scalar(t) as char]);
}

/// Feeding the rest of the first character's bytes, `j` of them held,
/// writes that character out and goes on from an empty buffer.
proof fn lemma_feed_first_scalar(t: Seq<u8>, j: int)
    requires
        t.len() > 0,
        valid_utf8(t),
        0 <= j < vstd::utf8::length_of_first_scalar(t),
    ensures
        ({
            let l = vstd::utf8::length_of_first_scalar(t);
            let (o, r) = feed_bytes(t.skip(l), Seq::empty());
            feed_bytes(t.skip(j), t.take(j)) == (seq![vstd::utf8::decode_first_scalar(t) as char] + o, r)
        }),
    decreases vstd::utf8::length_of_first_scalar(t) - j,
{
    let l = vstd::utf8::length_of_first_scalar(t);
    let u = t.skip(j);
    assert(u[0] == t[j]);
    assert(t.take(j).push(t[j]) =~= t.take(j + 1));
    assert(u.drop_first() =~= t.skip(j + 1));
    assert(t.take(j + 1) =~= t.subrange(0, j + 1));
    if j + 1 < l {
        lemma_partial_scalar_invalid(t, j + 1);
        lemma_feed_first_scalar(t, j + 1);
    } else {
        lemma_first_scalar_alone(t);
    }
}

/// Feeding the bytes of UTF-8 text from an empty buffer writes the text out
/// and holds nothing back.
proof fn lemma_feed_valid(t: Seq<u8>)
    requires
        valid_utf8(t),
    ensures
        feed_bytes(t, Seq::empty()) == (decode_utf8(t), Seq::<u8>::empty()),
    decreases t.len(),
{
    if t.len() > 0 {
        let l = vstd::utf8::length_of_first_scalar(t);
        lemma_feed_first_scalar(t, 0);
        assert(t.skip(0) =~= t);
        assert(t.take(0) =~= Seq::<u8>::empty());
        assert(t.skip(l) =~= vstd::utf8::pop_first_scalar(t));
        lemma_feed_valid(vstd::utf8::pop_first_scalar(t));
    }
}

/// Feeding two runs of bytes in turn is feeding them joined.
proof fn lemma_feed_concat(a: Seq<u8>, b: Seq<u8>, buf: Seq<u8>)
    ensures
        ({
            let (o1, b1) = feed_bytes(a, buf);
            let (o2, b2) = feed_bytes(b, b1);
            feed_bytes(a + b, buf) == (o1 + o2, b2)
        }),
    decreases a.len(),
{
    if a.len() == 0 {
        assert(a + b =~= b);
        assert(Seq::<char>::empty() + feed_bytes(b, buf).0 =~= feed_bytes(b, buf).0);
    } else {
        assert((a + b)[0] == a[0]);
        assert((a + b).drop_first() =~= a.drop_first() + b);
        let b2 = buf.push(a[0]);
        if valid_utf8(b2) {
            lemma_feed_concat(a.drop_first(), b, Seq::empty());
            let (o, r) = feed_bytes(a.drop_first(), Seq::empty());
            let (o2, r2) = feed_bytes(b, r);
            assert(decode_utf8(b2) + (o + o2) =~= (decode_utf8(b2) + o) + o2);
        } else {
            lemma_feed_concat(a.drop_first(), b, b2);
        }
    }
}

/// The byte runs of `groups`, one after the other.
pub open spec fn joined_bytes(groups: Seq<Seq<u8>>) -> Seq<u8>
    decreases groups.len(),
{
    if groups.len() == 0 {
        Seq::empty()
    } else {
        joined_bytes(groups.drop_last()) + groups.last()
    }
}

/// The spelling of `g` as `<0xHL>` groups is six bytes per byte, group `j`
/// spelling `g[j]`.
proof fn lemma_hex_spelling_at(g: Seq<u8>)
    ensures
        hex_spelling(g).len() == 6 * g.len(),
        forall|j: int, r: int|
            0 <= j < g.len() && 0 <= r < 6 ==> #[trigger] hex_spelling(g)[6 * j + r] == byte_spelling(
                #[trigger] g[j],
            )[r],
    decreases g.len(),
{
    if g.len() > 0 {
        let d = g.drop_last();
        lemma_hex_spelling_at(d);
        assert forall|j: int, r: int|
            0 <= j < g.len() && 0 <= r < 6 implies #[trigger] hex_spelling(g)[6 * j + r] == byte_spelling(
            #[trigger] g[j],
        )[r] by {
            if j < g.len() - 1 {
                assert(hex_spelling(d)[6 * j + r] == byte_spelling(d[j])[r]);
            }
        }
    }
}

/// The marker at a multiple of six of a group spelling reads the byte back.
proof fn lemma_marker_reads_back(g: Seq<u8>, j: int)
    requires
        0 <= j < g.len(),
    ensures
        marker_at(hex_spelling(g), 6 * j) == Some(g[j]),
{
    lemma_hex_spelling_at(g);
    let b = hex_spelling(g);
    let x = g[j];
    assert(b[6 * j + 0] == byte_spelling(x)[0]);
    assert(b[6 * j + 1] == byte_spelling(x)[1]);
    assert(b[6 * j + 2] == byte_spelling(x)[2]);
    assert(b[6 * j + 3] == byte_spelling(x)[3]);
    assert(b[6 * j + 4] == byte_spelling(x)[4]);
    assert(b[6 * j + 5] == byte_spelling(x)[5]);
    let hi = x / 16;
    let lo = x % 16;
    assert(hi < 16 && lo < 16);
    assert(byte_token::hex_digit_value(hex_upper_spec(hi)) == Some(hi));
    assert(byte_token::hex_digit_value(hex_upper_spec(lo)) == Some(lo));
    assert(hi * 16 + lo == x);
}

/// Scanning a group spelling from group `j` on feeds the bytes `g[j..]`.
proof fn lemma_scan_groups(g: Seq<u8>, j: int, out: Seq<char>, buf: Seq<u8>)
    requires
        0 <= j <= g.len(),
    ensures
        ({
            let (o, r) = feed_bytes(g.skip(j), buf);
            stream_scan(hex_spelling(g), 6 * j, 6 * j, out, buf) == (out + o, r)
        }),
    decreases g.len() - j,
{
    lemma_hex_spelling_at(g);
    let b = hex_spelling(g);
    if j == g.len() {
        assert(g.skip(j) =~= Seq::<u8>::empty());
        assert(out + Seq::<char>::empty() =~= out);
    } else {
        lemma_marker_reads_back(g, j);
        let x = g[j];
        let u = g.skip(j);
        assert(u[0] == x);
        assert(u.drop_first() =~= g.skip(j + 1));
        let b2 = buf.push(x);
        if valid_utf8(b2) {
            lemma_scan_groups(g, j + 1, out + decode_utf8(b2), Seq::empty());
            let (o, r) = feed_bytes(g.skip(j + 1), Seq::empty());
            assert(out + decode_utf8(b2) + o =~= out + (decode_utf8(b2) + o));
        } else {
            lemma_scan_groups(g, j + 1, out, b2);
        }
        assert(6 * j + 6 == 6 * (j + 1));
    }
}

proof fn lemma_groups_prefix(groups: Seq<Seq<u8>>, n: int)
    requires
        0 <= n <= groups.len(),
    ensures
        stream_tokens(groups.map_values(|g: Seq<u8>| hex_spelling(g)), n) == feed_bytes(
            joined_bytes(groups.subrange(0, n)),
            Seq::empty(),
        ),
    decreases n,
{
    let tokens = groups.map_values(|g: Seq<u8>| hex_spelling(g));
    if n == 0 {
        assert(groups.subrange(0, 0) =~= Seq::<Seq<u8>>::empty());
    } else {
        lemma_groups_prefix(groups, n - 1);
        let pre = groups.subrange(0, n - 1);
        assert(groups.subrange(0, n).drop_last() =~= pre);
        let (out, buf) = stream_tokens(tokens, n - 1);
        lemma_scan_groups(groups[n - 1], 0, Seq::empty(), buf);
        assert(groups[n - 1].skip(0) =~= groups[n - 1]);
        lemma_feed_concat(joined_bytes(pre), groups[n - 1], Seq::empty());
        let (o2, b2) = feed_bytes(groups[n - 1], buf);
        assert(Seq::<char>::empty() + o2 =~= o2);
    }
}

/// Law: the bytes of a text spelled as `<0xHL>` groups (upper-case digits)
/// and cut into entries at group boundaries (entry `i` spelling the bytes
/// `groups[i]`) decode back to the text.
pub proof fn lemma_byte_groups_decode(s: Seq<char>, groups: Seq<Seq<u8>>)
    requires
        joined_bytes(groups) == byte_token::spelled(s),
    ensures
        decode_stream(groups.map_values(|g: Seq<u8>| hex_spelling(g))) == s,
{
    lemma_groups_prefix(groups, groups.len() as int);
    assert(groups.subrange(0, groups.len() as int) =~= groups);
    vstd::utf8::encode_utf8_valid_utf8(s);
    vstd::utf8::encode_utf8_decode_utf8(s);
    lemma_feed_valid(byte_token::spelled(s));
    assert(s + flush(Seq::<u8>::empty()) =~= s);
}

/// Position `k + 1` starts a character when `k` starts one that is ASCII.
pub proof fn lemma_boundary_after_ascii(b: Seq<u8>, k: int)
    requires
        valid_utf8(b),
        0 <= k < b.len(),
        is_char_boundary(b, k),
        b[k] <= 0x7f,
    ensures
        is_char_boundary(b, k + 1),
    decreases b.len(),
{
    let l = vstd::utf8::length_of_first_scalar(b);
    let rest = vstd::utf8::pop_first_scalar(b);
    if k == 0 {
        assert(l == 1);
        assert(is_char_boundary(rest, 0));
    } else {
        assert(is_char_boundary(rest, k - l));
        assert(k - l >= 0);
        assert(rest[k - l] == b[k]);
        lemma_boundary_after_ascii(rest, k - l);
    }
}

/// An ASCII byte of valid UTF-8 starts a character.
pub proof fn lemma_ascii_is_boundary(b: Seq<u8>, k: int)
    requires
        valid_utf8(b),
        0 <= k < b.len(),
        b[k] <= 0x7f,
    ensures
        is_char_boundary(b, k),
{
    vstd::utf8::is_char_boundary_iff_not_is_continuation_byte(b, k);
}

/// The text of `token` between the byte positions `a` and `b`.
fn byte_slice(token: &str, a: usize, b: usize) -> (r: &str)
    requires
        a <= b <= token.spec_bytes().len(),
        is_char_boundary(token.spec_bytes(), a as int),
        is_char_boundary(token.spec_bytes(), b as int),
    ensures
        r.spec_bytes() == token.spec_bytes().subrange(a as int, b as int),
        r@ == decode_utf8(token.spec_bytes().subrange(a as int, b as int)),
{
    let ghost bytes = token.spec_bytes();
    proof {
        vstd::utf8::encode_utf8_valid_utf8(token@);
        vstd::utf8::valid_utf8_split(bytes, b as int);
    }
    let (head, _tail) = token.split_at(b);
    proof {
        let hb = bytes.subrange(0, b as int);
        assert(head.spec_bytes() == hb);
        if a < b {
            vstd::utf8::is_char_boundary_iff_not_is_continuation_byte(bytes, a as int);
            vstd::utf8::is_char_boundary_iff_not_is_continuation_byte(hb, a as int);
        } else {
            vstd::utf8::is_char_boundary_start_end_of_seq(hb);
        }
    }
    let (_front, piece) = head.split_at(a);
    proof {
        assert(piece.spec_bytes() =~= bytes.subrange(a as int, b as int));
        vstd::utf8::encode_utf8_decode_utf8(piece@);
    }
    piece
}

/// `std::str::from_utf8`: the bytes as text when they are valid UTF-8.
#[verifier::external_body]
pub(crate) fn utf8_text(bytes: &[u8]) -> (r: Option<&str>)
    ensures
        r is Some <==> valid_utf8(bytes@),
        r matches Some(s) ==> s.spec_bytes() == bytes@,
{
    std::str::from_utf8(bytes).ok()
}

/// `String::from_utf8_lossy`: the bytes as text, ill-formed parts replaced;
/// no bytes give no text.
#[verifier::external_body]
fn lossy_text(bytes: &[u8]) -> (r: String)
    ensures
        r@ == utf8_lossy(bytes@),
        bytes@.len() == 0 ==> r@.len() == 0,
{
    String::from_utf8_lossy(bytes).into_owned()
}

/// The marker bytes still held at the end of a stream, decoded lossily:
/// what `flush` gives, for an empty buffer too.
pub fn flush_held_bytes(byte_buffer: &[u8]) -> (r: String)
    ensures
        r@ == utf8_lossy(byte_buffer@),
        r@ == flush(byte_buffer@),
{
    let t = lossy_text(byte_buffer);
    proof {
        if byte_buffer@.len() == 0 {
            assert(t@ =~= Seq::<char>::empty());
        }
    }
    t
}

/// The byte that the two characters `c1 c2` spell in hexadecimal, as
/// `u8::from_str_radix` reads them: an optional `+` and one digit, or two
/// digits of either case.
fn radix16(c1: u8, c2: u8) -> (r: Option<u8>)
    ensures
        r == radix16_pair(c1, c2),
{
    if c1 == 43u8 {
        hex_value(c2)
    } else {
        match (hex_value(c1), hex_value(c2)) {
            (Some(h), Some(l)) => Some(h * 16 + l),
            _ => None,
        }
    }
}

/// The text that `token` adds to a stream whose undecoded marker bytes are
/// held in `byte_buffer`; the buffer keeps the marker bytes that do not form
/// UTF-8 yet.
pub fn stream_token(token: &str, byte_buffer: &mut Vec<u8>) -> (r: String)
    ensures
        (r@, final(byte_buffer)@) == stream_step(token.spec_bytes(), old(byte_buffer)@),
{
    let bytes = token.as_bytes();
    let ghost b = bytes@;
    let ghost buf0 = byte_buffer@;
    let mut out = String::new();
    let mut i: usize = 0;
    let mut text_start: usize = 0;
    proof {
        vstd::utf8::encode_utf8_valid_utf8(token@);
        vstd::utf8::is_char_boundary_start_end_of_seq(b);
    }
    while i < bytes.len()
        invariant
            b == bytes@,
            b == token.spec_bytes(),
            valid_utf8(b),
            0 <= text_start <= i <= b.len(),
            is_char_boundary(b, text_start as int),
            stream_scan(b, i as int, text_start as int, out@, byte_buffer@) == stream_scan(
                b,
                0,
                0,
                Seq::empty(),
                buf0,
            ),
        decreases bytes.len() - i,
    {
        if bytes.len() - i > 5 && bytes[i] == 60u8 && bytes[i + 1] == 48u8 && bytes[i + 2] == 120u8
            && bytes[i + 5] == 62u8 {
            if let Some(byte) = radix16(bytes[i + 3], bytes[i + 4]) {
                let ghost out0 = out@;
                let ghost bufv0 = byte_buffer@;
                proof {
                    assert(marker_at(b, i as int) == Some(byte));
                    lemma_ascii_is_boundary(b, i as int);
                    lemma_ascii_is_boundary(b, i + 5);
                    lemma_boundary_after_ascii(b, i + 5);
                }
                if text_start < i {
                    if byte_buffer.len() > 0 {
                        let t = lossy_text(byte_buffer.as_slice());
                        out.append(t.as_str());
                        byte_buffer.clear();
                    }
                    let piece = byte_slice(token, text_start, i);
                    out.append(piece);
                }
                let ghost out1 = out@;
                let ghost buf1 = byte_buffer@;
                proof {
                    if text_start < i {
                        assert(out1 =~= out0 + flush(bufv0) + decode_utf8(
                            b.subrange(text_start as int, i as int),
                        ));
                        assert(buf1 =~= Seq::<u8>::empty());
                    } else {
                        assert(out1 == out0 && buf1 == bufv0);
                    }
                }
                byte_buffer.push(byte);
                match utf8_text(byte_buffer.as_slice()) {
                    Some(text) => {
                        proof {
                            vstd::utf8::encode_utf8_decode_utf8(text@);
                        }
                        out.append(text);
                        byte_buffer.clear();
                    },
                    None => {},
                }
                proof {
                    let buf2 = buf1.push(byte);
                    assert(stream_scan(b, i as int, text_start as int, out0, bufv0) == (if valid_utf8(
                        buf2,
                    ) {
                        stream_scan(b, i + 6, i + 6, out1 + decode_utf8(buf2), Seq::<u8>::empty())
                    } else {
                        stream_scan(b, i + 6, i + 6, out1, buf2)
                    }));
                    if valid_utf8(buf2) {
                        assert(out@ =~= out1 + decode_utf8(buf2));
                    } else {
                        assert(out@ =~= out1);
                    }
                }
                i += 6;
                text_start = i;
                continue;
            }
        }
        i += 1;
    }
    if text_start < bytes.len() {
        if byte_buffer.len() > 0 {
            let t = lossy_text(byte_buffer.as_slice());
            out.append(t.as_str());
            byte_buffer.clear();
        }
        let piece = byte_slice(token, text_start, bytes.len());
        out.append(piece);
    }
    out
}

/// The text of a sequence of generated entries: markers become bytes, bytes
/// become text once they form UTF-8, and bytes that never do are written with
/// replacement characters.
pub fn decode_token_stream(tokens: &[String]) -> (r: String)
    ensures
        r@ == decode_stream(tokens@.map_values(|s: String| byte_token::spelled(s@))),
{
    let ghost sp = tokens@.map_values(|s: String| byte_token::spelled(s@));
    let mut output = String::new();
    let mut byte_buffer: Vec<u8> = Vec::new();
    let mut n: usize = 0;
    while n < tokens.len()
        invariant
            sp == tokens@.map_values(|s: String| byte_token::spelled(s@)),
            0 <= n <= tokens@.len(),
            (output@, byte_buffer@) == stream_tokens(sp, n as int),
        decreases tokens.len() - n,
    {
        let piece = stream_token(tokens[n].as_str(), &mut byte_buffer);
        output.append(piece.as_str());
        n += 1;
    }
    if byte_buffer.len() > 0 {
        let t = lossy_text(byte_buffer.as_slice());
        output.append(t.as_str());
    }
    proof {
        assert(output@ =~= decode_stream(sp));
    }
    output
}

} // verus!
