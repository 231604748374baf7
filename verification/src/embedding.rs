//! The text codec of speaker-embedding vectors: the little-endian bytes of
//! each 32-bit value, in standard base64 with padding. Values are handled
//! as their bit patterns (`f32::to_bits` / `f32::from_bits` on the float
//! side).
use vstd::prelude::*;
use base64::Engine;

verus! {

#[verifier::external_type_specification]
#[verifier::external_body]
pub struct ExDecodeError(base64::DecodeError);

/// The symbol of the standard base64 alphabet for `n` (0 to 63).
pub open spec fn b64_symbol(n: int) -> char {
    if n < 26 {
        (65 + n) as char
    } else if n < 52 {
        (97 + n - 26) as char
    } else if n < 62 {
        (48 + n - 52) as char
    } else if n == 62 {
        '+'
    } else {
        '/'
    }
}

/// Standard base64 of `bs` with padding: each group of three bytes becomes
/// four symbols of six bits each, most significant first; a final group of
/// one or two bytes is filled with zero bits and padded with `=` to four.
pub open spec fn base64_standard_encode(bs: Seq<u8>) -> Seq<char>
    decreases bs.len(),
{
    let b0 = bs[0] as int;
    let b1 = bs[1] as int;
    let b2 = bs[2] as int;
    if bs.len() == 0 {
        Seq::empty()
    } else if bs.len() == 1 {
        seq![b64_symbol(b0 / 4), b64_symbol((b0 % 4) * 16), '=', '=']
    } else if bs.len() == 2 {
        seq![b64_symbol(b0 / 4), b64_symbol((b0 % 4) * 16 + b1 / 16), b64_symbol((b1 % 16) * 4), '=']
    } else {
        seq![
            b64_symbol(b0 / 4),
            b64_symbol((b0 % 4) * 16 + b1 / 16),
            b64_symbol((b1 % 16) * 4 + b2 / 64),
            b64_symbol(b2 % 64),
        ] + base64_standard_encode(bs.skip(3))
    }
}

proof fn lemma_symbol(m: int, n: int)
    requires
        0 <= m < 64,
        0 <= n < 64,
    ensures
        b64_symbol(m) != '=',
        b64_symbol(m) == b64_symbol(n) ==> m == n,
{
    assert(b64_symbol(m) as int != 61);
    if b64_symbol(m) == b64_symbol(n) {
        assert(b64_symbol(m) as int == b64_symbol(n) as int);
    }
}

proof fn lemma_encode_len(bs: Seq<u8>)
    ensures
        bs.len() == 0 ==> base64_standard_encode(bs).len() == 0,
        0 < bs.len() < 3 ==> base64_standard_encode(bs).len() == 4,
        bs.len() >= 3 ==> base64_standard_encode(bs).len() == 4 + base64_standard_encode(
            bs.skip(3),
        ).len(),
{
}

proof fn lemma_digits(x: int, y: int, xp: int, yp: int, m: int)
    requires
        0 <= y < m,
        0 <= yp < m,
        x * m + y == xp * m + yp,
    ensures
        x == xp,
        y == yp,
{
    assert(x == xp && y == yp) by (nonlinear_arith)
        requires
            0 <= y < m,
            0 <= yp < m,
            x * m + y == xp * m + yp,
    ;
}

proof fn lemma_group_bytes(a0: int, a1: int, a2: int, c0: int, c1: int, c2: int)
    requires
        0 <= a0 < 256,
        0 <= a1 < 256,
        0 <= a2 < 256,
        0 <= c0 < 256,
        0 <= c1 < 256,
        0 <= c2 < 256,
        a0 / 4 == c0 / 4,
        (a0 % 4) * 16 + a1 / 16 == (c0 % 4) * 16 + c1 / 16,
        (a1 % 16) * 4 + a2 / 64 == (c1 % 16) * 4 + c2 / 64,
        a2 % 64 == c2 % 64,
    ensures
        a0 == c0,
        a1 == c1,
        a2 == c2,
{
    lemma_digits(a0 % 4, a1 / 16, c0 % 4, c1 / 16, 16);
    lemma_digits(a1 % 16, a2 / 64, c1 % 16, c2 / 64, 4);
}

/// No two byte strings have the same standard base64 encoding.
pub proof fn lemma_encode_injective(a: Seq<u8>, b: Seq<u8>)
    requires
        base64_standard_encode(a) == base64_standard_encode(b),
    ensures
        a == b,
    decreases a.len(),
{
    let ea = base64_standard_encode(a);
    let eb = base64_standard_encode(b);
    lemma_encode_len(a);
    lemma_encode_len(b);
    if a.len() > 0 && b.len() > 0 {
        let (a0, a1, a2) = (a[0] as int, a[1] as int, a[2] as int);
        let (c0, c1, c2) = (b[0] as int, b[1] as int, b[2] as int);
        assert(ea[0] == eb[0] && ea[1] == eb[1] && ea[2] == eb[2] && ea[3] == eb[3]);
        lemma_symbol(a0 / 4, c0 / 4);
        if a.len() >= 3 && b.len() >= 3 {
            lemma_symbol((a0 % 4) * 16 + a1 / 16, (c0 % 4) * 16 + c1 / 16);
            lemma_symbol((a1 % 16) * 4 + a2 / 64, (c1 % 16) * 4 + c2 / 64);
            lemma_symbol(a2 % 64, c2 % 64);
            assert(ea.skip(4) =~= base64_standard_encode(a.skip(3)));
            assert(eb.skip(4) =~= base64_standard_encode(b.skip(3)));
            lemma_encode_injective(a.skip(3), b.skip(3));
            lemma_group_bytes(a0, a1, a2, c0, c1, c2);
            assert(a =~= b) by {
                assert forall|k: int| 0 <= k < a.len() implies a[k] == b[k] by {
                    if k >= 3 {
                        assert(a[k] == a.skip(3)[k - 3]);
                        assert(b[k] == b.skip(3)[k - 3]);
                    }
                }
            }
        } else if a.len() >= 3 || b.len() >= 3 {
            let (x, y) = if a.len() >= 3 { (a, b) } else { (b, a) };
            lemma_encode_len(x.skip(3));
            assert(x.len() == 3);
            lemma_symbol(x[2] as int % 64, 0);
        } else {
            lemma_symbol((a0 % 4) * 16 + a1 / 16, (c0 % 4) * 16 + c1 / 16);
            lemma_symbol((a0 % 4) * 16, (c0 % 4) * 16 + c1 / 16);
            lemma_symbol((a0 % 4) * 16 + a1 / 16, (c0 % 4) * 16);
            lemma_symbol((a0 % 4) * 16, (c0 % 4) * 16);
            lemma_symbol((a1 % 16) * 4, (c1 % 16) * 4);
            if a.len() == 2 && b.len() == 2 {
                lemma_group_bytes(a0, a1, 0, c0, c1, 0);
            } else if a.len() == 1 && b.len() == 1 {
                lemma_group_bytes(a0, 0, 0, c0, 0, 0);
            }
            assert(a =~= b);
        }
    } else if a.len() > 0 || b.len() > 0 {
        assert(ea.len() != eb.len());
    } else {
        assert(a =~= b);
    }
}

/// `base64::engine::general_purpose::STANDARD.encode`: the standard
/// base64 of `bytes`, with padding. The crate computes the output length
/// with checked arithmetic and panics on overflow, which the bound on the
/// input length rules out.
#[verifier::external_body]
fn b64_encode(bytes: &Vec<u8>) -> (r: String)
    requires
        bytes.len() <= usize::MAX / 2,
    ensures
        r@ == base64_standard_encode(bytes@),
{
    base64::engine::general_purpose::STANDARD.encode(bytes)
}

/// `base64::engine::general_purpose::STANDARD.decode`. That engine demands
/// canonical padding and refuses trailing bits, so it accepts exactly the
/// texts that are the standard encoding of some bytes, and gives back
/// bytes whose encoding the text is.
#[verifier::external_body]
fn b64_decode(text: &str) -> (r: Result<Vec<u8>, base64::DecodeError>)
    ensures
        r is Ok <==> exists|b: Seq<u8>| text@ == #[trigger] base64_standard_encode(b),
        r matches Ok(b) ==> text@ == base64_standard_encode(b@),
{
    base64::engine::general_purpose::STANDARD.decode(text)
}

/// Why an embedding could not be decoded: the text is not valid standard
/// base64, for the reason the decoder gave.
#[derive(Debug, Clone, Copy, PartialEq, Eq, Structural)]
pub enum EmbeddingDecodeError {
    /// A byte outside the alphabet, or misplaced padding, at this offset.
    InvalidByte(usize, u8),
    /// The number of base64 symbols is impossible.
    InvalidLength(usize),
    /// The last symbol, at this offset, carries bits that would be dropped.
    InvalidLastSymbol(usize, u8),
    /// The padding is absent or not canonical.
    InvalidPadding,
}

/// The library's copy of a `base64::DecodeError`: one variant for each of
/// the crate's, with the same fields. Nothing is stated of which variant
/// the decoder picks for given text; that rests on how the crate scans its
/// input.
#[verifier::external_body]
fn decode_error_detail(e: base64::DecodeError) -> (r: EmbeddingDecodeError) {
    match e {
        base64::DecodeError::InvalidByte(i, b) => EmbeddingDecodeError::InvalidByte(i, b),
        base64::DecodeError::InvalidLength(n) => EmbeddingDecodeError::InvalidLength(n),
        base64::DecodeError::InvalidLastSymbol(i, b) => EmbeddingDecodeError::InvalidLastSymbol(i, b),
        base64::DecodeError::InvalidPadding => EmbeddingDecodeError::InvalidPadding,
    }
}

/// The little-endian bytes of `v`.
pub open spec fn le_bytes(v: u32) -> Seq<u8> {
    seq![
        (v & 0xff) as u8,
        ((v >> 8u32) & 0xff) as u8,
        ((v >> 16u32) & 0xff) as u8,
        ((v >> 24u32) & 0xff) as u8,
    ]
}

/// The little-endian bytes of every value, in order.
pub open spec fn bytes_of_words(vs: Seq<u32>) -> Seq<u8>
    decreases vs.len(),
{
    if vs.len() == 0 {
        Seq::empty()
    } else {
        bytes_of_words(vs.drop_last()) + le_bytes(vs.last())
    }
}

/// The value whose little-endian bytes are `b0 b1 b2 b3`.
pub open spec fn word_of(b0: u8, b1: u8, b2: u8, b3: u8) -> u32 {
    (b0 as u32) | ((b1 as u32) << 8u32) | ((b2 as u32) << 16u32) | ((b3 as u32) << 24u32)
}

/// The values of each complete group of four bytes; a shorter tail is
/// ignored.
pub open spec fn words_of_bytes(bs: Seq<u8>) -> Seq<u32> {
    Seq::new(
        bs.len() / 4,
        |k: int| word_of(bs[4 * k], bs[4 * k + 1], bs[4 * k + 2], bs[4 * k + 3]),
    )
}

/// What `encode_embedding_bits` returns.
pub open spec fn encode_embedding_spec(vs: Seq<u32>) -> Seq<char> {
    base64_standard_encode(bytes_of_words(vs))
}

pub proof fn lemma_word_of_le_bytes(v: u32)
    ensures
        word_of(le_bytes(v)[0], le_bytes(v)[1], le_bytes(v)[2], le_bytes(v)[3]) == v,
{
    assert(((v & 0xff) as u8 as u32) | ((((v >> 8u32) & 0xff) as u8 as u32) << 8u32) | ((((v
        >> 16u32) & 0xff) as u8 as u32) << 16u32) | ((((v >> 24u32) & 0xff) as u8 as u32)
        << 24u32) == v) by (bit_vector);
}

pub proof fn lemma_bytes_of_words(vs: Seq<u32>)
    ensures
        bytes_of_words(vs).len() == 4 * vs.len(),
        forall|k: int, j: int|
            0 <= k < vs.len() && 0 <= j < 4 ==> #[trigger] bytes_of_words(vs)[4 * k + j]
                == le_bytes(vs[k])[j],
    decreases vs.len(),
{
    if vs.len() > 0 {
        let d = vs.drop_last();
        lemma_bytes_of_words(d);
        assert forall|k: int, j: int| 0 <= k < vs.len() && 0 <= j < 4 implies #[trigger] bytes_of_words(
            vs,
        )[4 * k + j] == le_bytes(vs[k])[j] by {
            if k < d.len() {
                assert(bytes_of_words(d)[4 * k + j] == le_bytes(d[k])[j]);
            }
        }
    }
}

/// Decoding the bytes of a value list gives back the list.
pub proof fn lemma_words_bytes_roundtrip(vs: Seq<u32>)
    ensures
        words_of_bytes(bytes_of_words(vs)) == vs,
{
    lemma_bytes_of_words(vs);
    let bs = bytes_of_words(vs);
    assert forall|k: int| 0 <= k < vs.len() implies #[trigger] words_of_bytes(bs)[k] == vs[k] by {
        lemma_word_of_le_bytes(vs[k]);
        assert(bs[4 * k + 0] == le_bytes(vs[k])[0]);
        assert(bs[4 * k + 1] == le_bytes(vs[k])[1]);
        assert(bs[4 * k + 2] == le_bytes(vs[k])[2]);
        assert(bs[4 * k + 3] == le_bytes(vs[k])[3]);
    }
    assert(words_of_bytes(bs) =~= vs);
}

/// Base64 of the little-endian bytes of `values`.
pub fn encode_embedding_bits(values: &Vec<u32>) -> (r: String)
    requires
        values.len() <= usize::MAX / 8,
    ensures
        r@ == encode_embedding_spec(values@),
{
    let mut raw: Vec<u8> = Vec::new();
    let mut i: usize = 0;
    while i < values.len()
        invariant
            i <= values.len(),
            values.len() <= usize::MAX / 8,
            raw@ == bytes_of_words(values@.take(i as int)),
            raw.len() == 4 * i,
        decreases values.len() - i,
    {
        let v = values[i];
        assert(values@.take(i + 1).drop_last() =~= values@.take(i as int));
        raw.push((v & 0xff) as u8);
        raw.push(((v >> 8) & 0xff) as u8);
        raw.push(((v >> 16) & 0xff) as u8);
        raw.push(((v >> 24) & 0xff) as u8);
        assert(raw@ =~= bytes_of_words(values@.take(i + 1)));
        i = i + 1;
    }
    assert(values@.take(values.len() as int) =~= values@);
    b64_encode(&raw)
}

/// The 32-bit values whose little-endian bytes the base64 text `b64`
/// holds; a trailing group of fewer than four bytes is ignored.
pub fn decode_embedding_bits(b64: &str) -> (r: Result<Vec<u32>, EmbeddingDecodeError>)
    ensures
        r is Ok <==> exists|bytes: Seq<u8>| b64@ == #[trigger] base64_standard_encode(bytes),
        forall|bytes: Seq<u8>|
            b64@ == #[trigger] base64_standard_encode(bytes) ==> (r matches Ok(v) && v@
                == words_of_bytes(bytes)),
        forall|vs: Seq<u32>|
            b64@ == #[trigger] encode_embedding_spec(vs) ==> (r matches Ok(v) && v@ == vs),
{
    let raw = match b64_decode(b64) {
        Ok(raw) => raw,
        Err(e) => {
            return Err(decode_error_detail(e));
        },
    };
    let n = raw.len() / 4;
    let mut out: Vec<u32> = Vec::new();
    let mut k: usize = 0;
    while k < n
        invariant
            k <= n,
            n == raw.len() / 4,
            out@ == words_of_bytes(raw@).take(k as int),
        decreases n - k,
    {
        let w: u32 = (raw[4 * k] as u32) | ((raw[4 * k + 1] as u32) << 8) | ((raw[4 * k + 2] as u32)
            << 16) | ((raw[4 * k + 3] as u32) << 24);
        out.push(w);
        assert(out@ =~= words_of_bytes(raw@).take(k + 1));
        k = k + 1;
    }
    assert(words_of_bytes(raw@).take(n as int) =~= words_of_bytes(raw@));
    proof {
        assert forall|bytes: Seq<u8>| b64@ == #[trigger] base64_standard_encode(bytes) implies raw@
            == bytes by {
            lemma_encode_injective(raw@, bytes);
        }
        assert forall|vs: Seq<u32>| b64@ == #[trigger] encode_embedding_spec(vs) implies out@ == vs by {
            lemma_encode_injective(raw@, bytes_of_words(vs));
            lemma_words_bytes_roundtrip(vs);
        }
    }
    Ok(out)
}

} // verus!
