//! Byte-level token spellings: a vocabulary entry such as `<0x41>` (or a run
//! of them, `<0xE2><0x82><0xAC>`) stands for raw bytes rather than for its own
//! text.
use vstd::prelude::*;
use vstd::string::StringSliceAdditionalSpecFns;

verus! {

/// Value of an ASCII hexadecimal digit, either case.
pub open spec fn hex_digit_value(b: u8) -> Option<u8> {
    if 48 <= b <= 57 {
        Some((b - 48) as u8)
    } else if 97 <= b <= 102 {
        Some((b - 97 + 10) as u8)
    } else if 65 <= b <= 70 {
        Some((b - 65 + 10) as u8)
    } else {
        None
    }
}

/// The byte spelled by the six bytes `<0xHL>` that start at `pos`, if they
/// spell one.
pub open spec fn byte_group_at(b: Seq<u8>, pos: int) -> Option<u8> {
    if 0 <= pos && pos + 6 <= b.len() && b[pos] == 60 && b[pos + 1] == 48 && b[pos + 2] == 120
        && b[pos + 5] == 62 && hex_digit_value(b[pos + 3]) is Some && hex_digit_value(
        b[pos + 4],
    ) is Some {
        Some((hex_digit_value(b[pos + 3])->0 * 16 + hex_digit_value(b[pos + 4])->0) as u8)
    } else {
        None
    }
}

/// The byte a whole token spells, when the token is exactly one `<0xHL>`.
pub open spec fn byte_token_value(b: Seq<u8>) -> Option<u8> {
    if b.len() == 6 {
        byte_group_at(b, 0)
    } else {
        None
    }
}

/// From `pos` on, the bytes are a (possibly empty) run of whole `<0xHL>` groups.
pub open spec fn byte_groups_from(b: Seq<u8>, pos: int) -> bool
    decreases b.len() - pos,
{
    if pos < 0 {
        false
    } else if pos >= b.len() {
        true
    } else if pos + 6 > b.len() {
        false
    } else {
        byte_group_at(b, pos) is Some && byte_groups_from(b, pos + 6)
    }
}

/// The token is a non-empty run of `<0xHL>` groups.
pub open spec fn is_byte_encoded(b: Seq<u8>) -> bool {
    b.len() > 0 && byte_groups_from(b, 0)
}

/// The bytes spelled by the `<0xHL>` groups from `pos` on.
pub open spec fn decode_groups_from(b: Seq<u8>, pos: int) -> Seq<u8>
    decreases b.len() - pos,
{
    if pos < 0 || pos + 6 > b.len() {
        Seq::empty()
    } else {
        seq![byte_group_at(b, pos)->0] + decode_groups_from(b, pos + 6)
    }
}

/// The raw bytes that a vocabulary entry stands for.
pub open spec fn token_bytes(b: Seq<u8>) -> Seq<u8> {
    if is_byte_encoded(b) {
        decode_groups_from(b, 0)
    } else {
        b
    }
}

/// The UTF-8 bytes of a character sequence.
pub open spec fn spelled(s: Seq<char>) -> Seq<u8> {
    vstd::utf8::encode_utf8(s)
}

/// Spelling a concatenation spells each part in turn.
pub proof fn lemma_spelled_concat(a: Seq<char>, b: Seq<char>)
    ensures
        spelled(a + b) == spelled(a) + spelled(b),
    decreases a.len(),
{
    if a.len() == 0 {
        assert(a + b =~= b);
        assert(spelled(a) =~= Seq::<u8>::empty());
        assert(spelled(a) + spelled(b) =~= spelled(b));
    } else {
        assert((a + b)[0] == a[0]);
        assert((a + b).drop_first() =~= a.drop_first() + b);
        lemma_spelled_concat(a.drop_first(), b);
        assert(spelled(a + b) =~= spelled(a) + spelled(b));
    }
}

pub proof fn lemma_decode_groups_len(b: Seq<u8>, pos: int)
    requires
        byte_groups_from(b, pos),
        pos <= b.len(),
    ensures
        decode_groups_from(b, pos).len() * 6 == b.len() - pos,
    decreases b.len() - pos,
{
    if pos < b.len() {
        lemma_decode_groups_len(b, pos + 6);
    }
}

/// Value of an ASCII hexadecimal digit, either case.
pub fn hex_value(b: u8) -> (r: Option<u8>)
    ensures
        r == hex_digit_value(b),
{
    if b >= 48u8 && b <= 57u8 {
        Some(b - 48u8)
    } else if b >= 97u8 && b <= 102u8 {
        Some(b - 97u8 + 10)
    } else if b >= 65u8 && b <= 70u8 {
        Some(b - 65u8 + 10)
    } else {
        None
    }
}

/// The byte spelled by `b[pos..pos + 6]`, if it has the form `<0xHL>`.
pub fn parse_byte_group(b: &[u8], pos: usize) -> (r: Option<u8>)
    ensures
        r == byte_group_at(b@, pos as int),
{
    if pos > b.len() || b.len() - pos < 6 {
        return None;
    }
    if b[pos] != 60u8 || b[pos + 1] != 48u8 || b[pos + 2] != 120u8 || b[pos + 5] != 62u8 {
        return None;
    }
    let hi = match hex_value(b[pos + 3]) {
        Some(v) => v,
        None => return None,
    };
    let lo = match hex_value(b[pos + 4]) {
        Some(v) => v,
        None => return None,
    };
    assert(hi < 16 && lo < 16);
    assert((hi << 4u8) | lo == hi * 16 + lo) by (bit_vector)
        requires
            hi < 16,
            lo < 16,
    ;
    Some((hi << 4) | lo)
}

/// The byte a token spells when it is exactly one `<0xHL>` group.
pub fn parse_byte_token(token: &str) -> (r: Option<u8>)
    ensures
        r == byte_token_value(token.spec_bytes()),
{
    let b = token.as_bytes();
    if b.len() != 6 {
        return None;
    }
    parse_byte_group(b, 0)
}

/// Whether the bytes of a token are a non-empty run of `<0xHL>` groups.
pub fn is_byte_encoded_bytes(bytes: &[u8]) -> (r: bool)
    ensures
        r == is_byte_encoded(bytes@),
{
    if bytes.len() == 0 {
        return false;
    }
    let mut pos: usize = 0;
    while pos < bytes.len()
        invariant
            0 <= pos <= bytes.len(),
            byte_groups_from(bytes@, 0) == byte_groups_from(bytes@, pos as int),
            bytes@.len() > 0,
        decreases bytes.len() - pos,
    {
        if bytes.len() - pos < 6 {
            return false;
        }
        if parse_byte_group(bytes, pos).is_none() {
            return false;
        }
        pos += 6;
    }
    true
}

/// Whether a token is a non-empty run of `<0xHL>` groups.
pub fn is_byte_encoded_token(token: &str) -> (r: bool)
    ensures
        r == is_byte_encoded(token.spec_bytes()),
{
    is_byte_encoded_bytes(token.as_bytes())
}

/// Appends to `out` the raw bytes that `token` stands for.
pub fn append_token_bytes(token: &str, out: &mut Vec<u8>)
    ensures
        final(out)@ == old(out)@ + token_bytes(token.spec_bytes()),
{
    let bytes = token.as_bytes();
    if is_byte_encoded_bytes(bytes) {
        let mut pos: usize = 0;
        while pos < bytes.len()
            invariant
                0 <= pos <= bytes.len(),
                pos % 6 == 0,
                byte_groups_from(bytes@, pos as int),
                old(out)@ + decode_groups_from(bytes@, 0) == out@ + decode_groups_from(
                    bytes@,
                    pos as int,
                ),
            decreases bytes.len() - pos,
        {
            let byte = parse_byte_group(bytes, pos);
            let byte = match byte {
                Some(v) => v,
                None => {
                    assert(false);
                    0
                },
            };
            let ghost before = out@;
            out.push(byte);
            assert(decode_groups_from(bytes@, pos as int) == seq![byte] + decode_groups_from(
                bytes@,
                pos + 6,
            ));
            assert(before + decode_groups_from(bytes@, pos as int) == out@ + decode_groups_from(
                bytes@,
                pos + 6,
            ));
            pos += 6;
        }
        assert(decode_groups_from(bytes@, pos as int) =~= Seq::<u8>::empty());
        assert(out@ =~= old(out)@ + decode_groups_from(bytes@, 0));
    } else {
        let mut i: usize = 0;
        while i < bytes.len()
            invariant
                0 <= i <= bytes.len(),
                out@ == old(out)@ + bytes@.subrange(0, i as int),
            decreases bytes.len() - i,
        {
            out.push(bytes[i]);
            assert(bytes@.subrange(0, i + 1) == bytes@.subrange(0, i as int).push(bytes@[i as int]));
            i += 1;
        }
        assert(bytes@.subrange(0, i as int) =~= bytes@);
    }
}

/// How many raw bytes a token stands for.
pub fn decoded_token_len(token: &str) -> (r: usize)
    ensures
        r == token_bytes(token.spec_bytes()).len(),
{
    let bytes = token.as_bytes();
    if is_byte_encoded_bytes(bytes) {
        proof {
            lemma_decode_groups_len(bytes@, 0);
        }
        bytes.len() / 6
    } else {
        bytes.len()
    }
}

} // verus!
