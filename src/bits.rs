//! Conversion between 32-byte digests and their bit decomposition.
use vstd::prelude::*;

verus! {

/// Number of bytes in a digest.
pub const DIGEST_BYTES: usize = 32;

/// Number of scalars in the bit decomposition of a digest.
pub const DIGEST_BITS: usize = 256;

/// Bit `j` of byte `b`, counting from the most significant bit (`j == 0`).
pub open spec fn bit_of(b: u8, j: int) -> u8 {
    (b >> ((7 - j) as u8)) & 1u8
}

/// The bit decomposition of `d`: bytes in ascending order, each most
/// significant bit first.
pub open spec fn encode_spec(d: Seq<u8>) -> Seq<u8> {
    Seq::new(8 * d.len(), |k: int| bit_of(d[k / 8], k % 8))
}

/// The byte whose bits, most significant first, are `bits[8 * i .. 8 * i + 8]`.
pub open spec fn byte_from_bits(bits: Seq<u8>, i: int) -> u8 {
    (bits[8 * i] << 7u8) | (bits[8 * i + 1] << 6u8) | (bits[8 * i + 2] << 5u8) | (bits[8 * i
        + 3] << 4u8) | (bits[8 * i + 4] << 3u8) | (bits[8 * i + 5] << 2u8) | (bits[8 * i + 6]
        << 1u8) | bits[8 * i + 7]
}

/// The bytes that a bit sequence spells, eight bits per byte.
pub open spec fn decode_spec(bits: Seq<u8>) -> Seq<u8> {
    Seq::new(bits.len() / 8, |i: int| byte_from_bits(bits, i))
}

/// Every scalar of `s` is 0 or 1.
pub open spec fn all_bits(s: Seq<u8>) -> bool {
    forall|k: int| 0 <= k < s.len() ==> #[trigger] s[k] <= 1
}

proof fn lemma_byte_round_trip(b: u8)
    ensures
        ((((b >> 7u8) & 1u8) << 7u8) | (((b >> 6u8) & 1u8) << 6u8) | (((b >> 5u8) & 1u8) << 5u8)
            | (((b >> 4u8) & 1u8) << 4u8) | (((b >> 3u8) & 1u8) << 3u8) | (((b >> 2u8) & 1u8)
            << 2u8) | (((b >> 1u8) & 1u8) << 1u8) | ((b >> 0u8) & 1u8)) == b,
{
    assert(((((b >> 7u8) & 1u8) << 7u8) | (((b >> 6u8) & 1u8) << 6u8) | (((b >> 5u8) & 1u8)
        << 5u8) | (((b >> 4u8) & 1u8) << 4u8) | (((b >> 3u8) & 1u8) << 3u8) | (((b >> 2u8) & 1u8)
        << 2u8) | (((b >> 1u8) & 1u8) << 1u8) | ((b >> 0u8) & 1u8)) == b) by (bit_vector);
}

proof fn lemma_bit_is_bit(b: u8, j: int)
    ensures
        bit_of(b, j) <= 1,
{
    let s = (7 - j) as u8;
    assert((b >> s) & 1u8 <= 1) by (bit_vector);
}

/// Decoding the bit decomposition of a byte sequence gives the sequence back.
pub proof fn lemma_decode_encode(d: Seq<u8>)
    ensures
        decode_spec(encode_spec(d)) == d,
{
    let e = encode_spec(d);
    assert forall|i: int| 0 <= i < d.len() implies #[trigger] decode_spec(e)[i] == d[i] by {
        assert(8 * i / 8 == i && (8 * i + 1) / 8 == i && (8 * i + 2) / 8 == i && (8 * i + 3) / 8
            == i && (8 * i + 4) / 8 == i && (8 * i + 5) / 8 == i && (8 * i + 6) / 8 == i && (8 * i
            + 7) / 8 == i) by (nonlinear_arith)
            requires
                0 <= i,
        ;
        assert((8 * i) % 8 == 0 && (8 * i + 1) % 8 == 1 && (8 * i + 2) % 8 == 2 && (8 * i + 3) % 8
            == 3 && (8 * i + 4) % 8 == 4 && (8 * i + 5) % 8 == 5 && (8 * i + 6) % 8 == 6 && (8 * i
            + 7) % 8 == 7) by (nonlinear_arith)
            requires
                0 <= i,
        ;
        assert(8 * i + 7 < 8 * d.len()) by (nonlinear_arith)
            requires
                0 <= i < d.len(),
        ;
        lemma_byte_round_trip(d[i]);
    }
    assert(decode_spec(e) =~= d);
}

/// The bit decomposition of a byte sequence has eight scalars per byte, each
/// of them 0 or 1.
pub proof fn lemma_encode_is_bits(d: Seq<u8>)
    ensures
        encode_spec(d).len() == 8 * d.len(),
        all_bits(encode_spec(d)),
{
    assert forall|k: int| 0 <= k < encode_spec(d).len() implies #[trigger] encode_spec(d)[k]
        <= 1 by {
        lemma_bit_is_bit(d[k / 8], k % 8);
    }
}

/// Appends the bit decomposition of `hash` to `values`.
pub fn push_hash_as_bits(values: &mut Vec<u8>, hash: [u8; 32])
    requires
        old(values).len() + DIGEST_BITS <= usize::MAX,
    ensures
        final(values)@ == old(values)@ + encode_spec(hash@),
{
    let ghost start = values@;
    let ghost target = encode_spec(hash@);
    let mut k: usize = 0;
    while k < DIGEST_BITS
        invariant
            k <= DIGEST_BITS,
            target == encode_spec(hash@),
            target.len() == DIGEST_BITS,
            start.len() + DIGEST_BITS <= usize::MAX,
            values@ == start + target.take(k as int),
        decreases DIGEST_BITS - k,
    {
        let byte = hash[k / 8];
        let shift = (7 - k % 8) as u8;
        values.push((byte >> shift) & 1);
        assert(target.take(k as int + 1) =~= target.take(k as int).push(target[k as int]));
        k = k + 1;
    }
    assert(target.take(DIGEST_BITS as int) =~= target);
}

/// The bit decomposition of a digest: 256 scalars, bytes in ascending order,
/// each most significant bit first.
pub fn encode_digest(digest: &[u8; 32]) -> (r: Vec<u8>)
    ensures
        r@ == encode_spec(digest@),
        r@.len() == DIGEST_BITS,
{
    let mut r: Vec<u8> = Vec::new();
    push_hash_as_bits(&mut r, *digest);
    assert(r@ =~= encode_spec(digest@));
    r
}

/// The digest whose bit decomposition is `bits`.
pub fn decode_digest(bits: &[u8]) -> (r: [u8; 32])
    requires
        bits@.len() == DIGEST_BITS,
        all_bits(bits@),
    ensures
        r@ == decode_spec(bits@),
{
    let mut r: [u8; 32] = [0u8; 32];
    let mut i: usize = 0;
    while i < DIGEST_BYTES
        invariant
            i <= DIGEST_BYTES,
            bits@.len() == DIGEST_BITS,
            forall|j: int| 0 <= j < i ==> r@[j] == byte_from_bits(bits@, j),
        decreases DIGEST_BYTES - i,
    {
        let b = 8 * i;
        r[i] = (bits[b] << 7u8) | (bits[b + 1] << 6u8) | (bits[b + 2] << 5u8) | (bits[b + 3]
            << 4u8) | (bits[b + 4] << 3u8) | (bits[b + 5] << 2u8) | (bits[b + 6] << 1u8) | bits[b
            + 7];
        i = i + 1;
    }
    assert(r@ =~= decode_spec(bits@));
    r
}

} // verus!
