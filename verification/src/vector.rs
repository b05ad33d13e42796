//! The on-disk encoding of embedding vectors.
//!
//! A stored vector is a fixed-width array of little-endian 32-bit values,
//! one word per dimension. The library works with the raw 32-bit patterns;
//! interpreting a pattern as a floating-point number is the caller's
//! business and never affects the encoding.

use vstd::prelude::*;

verus! {

/// The four little-endian bytes of one 32-bit word.
pub open spec fn le_bytes_of_word(w: u32) -> Seq<u8> {
    seq![
        (w & 0xff) as u8,
        ((w >> 8) & 0xff) as u8,
        ((w >> 16) & 0xff) as u8,
        ((w >> 24) & 0xff) as u8,
    ]
}

/// The little-endian serialization of a vector of 32-bit words.
pub open spec fn serialize_spec(v: Seq<u32>) -> Seq<u8>
    decreases v.len(),
{
    if v.len() == 0 {
        Seq::empty()
    } else {
        serialize_spec(v.drop_last()) + le_bytes_of_word(v.last())
    }
}

/// A serialized vector takes exactly four bytes per word.
pub proof fn lemma_serialize_len(v: Seq<u32>)
    ensures
        serialize_spec(v).len() == 4 * v.len(),
    decreases v.len(),
{
    if v.len() > 0 {
        lemma_serialize_len(v.drop_last());
    }
}

/// Serializes a vector of 32-bit patterns into a little-endian byte blob.
pub fn serialize_embedding(v: &Vec<u32>) -> (r: Vec<u8>)
    ensures
        r@ == serialize_spec(v@),
        r@.len() == 4 * v@.len(),
{
    let mut r: Vec<u8> = Vec::new();
    let mut i: usize = 0;
    while i < v.len()
        invariant
            i <= v@.len(),
            r@ == serialize_spec(v@.take(i as int)),
            r@.len() == 4 * i,
        decreases v@.len() - i,
    {
        let w = v[i];
        r.push((w & 0xff) as u8);
        r.push(((w >> 8) & 0xff) as u8);
        r.push(((w >> 16) & 0xff) as u8);
        r.push(((w >> 24) & 0xff) as u8);
        proof {
            let ghost p = v@.take(i + 1 as int);
            assert(p.drop_last() =~= v@.take(i as int));
            assert(p.last() == v@[i as int]);
            assert(r@ =~= serialize_spec(v@.take(i as int)) + le_bytes_of_word(v@[i as int]));
        }
        i = i + 1;
    }
    proof {
        assert(v@.take(v@.len() as int) =~= v@);
        lemma_serialize_len(v@);
    }
    r
}

/// Reassembling a word from its little-endian bytes is exact.
proof fn lemma_word_bytes_roundtrip(w: u32)
    ensures
        ((w & 0xff) | (((w >> 8) & 0xff) << 8) | (((w >> 16) & 0xff) << 16) | (((w >> 24)
            & 0xff) << 24)) == w,
{
    assert(((w & 0xff) | (((w >> 8) & 0xff) << 8) | (((w >> 16) & 0xff) << 16) | (((w >> 24)
        & 0xff) << 24)) == w) by (bit_vector);
}

/// Two words with the same little-endian bytes are the same word.
proof fn lemma_le_bytes_injective(a: u32, b: u32)
    requires
        le_bytes_of_word(a) == le_bytes_of_word(b),
    ensures
        a == b,
{
    assert((a & 0xff) as u8 == (b & 0xff) as u8);
    assert(((a >> 8) & 0xff) as u8 == ((b >> 8) & 0xff) as u8);
    assert(((a >> 16) & 0xff) as u8 == ((b >> 16) & 0xff) as u8);
    assert(((a >> 24) & 0xff) as u8 == ((b >> 24) & 0xff) as u8);
    assert((a & 0xff) as u8 == (b & 0xff) as u8 && ((a >> 8) & 0xff) as u8 == ((b >> 8)
        & 0xff) as u8 && ((a >> 16) & 0xff) as u8 == ((b >> 16) & 0xff) as u8 && ((a >> 24)
        & 0xff) as u8 == ((b >> 24) & 0xff) as u8 ==> a == b) by (bit_vector);
}

/// Serialization loses nothing: two vectors with the same blob are equal.
/// Together with the contract of [`deserialize_embedding`], a serialized
/// vector always deserializes back to exactly itself.
pub proof fn lemma_serialize_injective(v: Seq<u32>, w: Seq<u32>)
    requires
        serialize_spec(v) == serialize_spec(w),
    ensures
        v == w,
    decreases v.len(),
{
    lemma_serialize_len(v);
    lemma_serialize_len(w);
    if v.len() == 0 {
        assert(v =~= w);
    } else {
        let sv = serialize_spec(v);
        let sw = serialize_spec(w);
        lemma_serialize_len(v.drop_last());
        lemma_serialize_len(w.drop_last());
        assert(sv == serialize_spec(v.drop_last()) + le_bytes_of_word(v.last()));
        assert(sw == serialize_spec(w.drop_last()) + le_bytes_of_word(w.last()));
        assert(serialize_spec(v.drop_last()) =~= sv.take(sv.len() - 4));
        assert(serialize_spec(w.drop_last()) =~= sw.take(sw.len() - 4));
        assert(le_bytes_of_word(v.last()) =~= sv.skip(sv.len() - 4));
        assert(le_bytes_of_word(w.last()) =~= sw.skip(sw.len() - 4));
        lemma_le_bytes_injective(v.last(), w.last());
        lemma_serialize_injective(v.drop_last(), w.drop_last());
        assert(v =~= v.drop_last().push(v.last()));
        assert(w =~= w.drop_last().push(w.last()));
    }
}

/// Decodes a little-endian byte blob back into 32-bit patterns. Succeeds
/// exactly on blobs whose length is a multiple of four, and then returns
/// the unique vector that serializes to the blob.
pub fn deserialize_embedding(bytes: &Vec<u8>) -> (r: Option<Vec<u32>>)
    ensures
        match r {
            Some(v) => bytes@.len() % 4 == 0 && v@.len() * 4 == bytes@.len() && serialize_spec(
                v@,
            ) == bytes@,
            None => bytes@.len() % 4 != 0,
        },
{
    if bytes.len() % 4 != 0 {
        return None;
    }
    let n = bytes.len() / 4;
    let mut v: Vec<u32> = Vec::new();
    let mut i: usize = 0;
    while i < n
        invariant
            i <= n,
            n * 4 == bytes@.len(),
            bytes@.len() <= usize::MAX,
            v@.len() == i,
            serialize_spec(v@) == bytes@.take(4 * i),
        decreases n - i,
    {
        let b0 = bytes[4 * i] as u32;
        let b1 = bytes[4 * i + 1] as u32;
        let b2 = bytes[4 * i + 2] as u32;
        let b3 = bytes[4 * i + 3] as u32;
        let w: u32 = b0 | (b1 << 8) | (b2 << 16) | (b3 << 24);
        proof {
            let ghost c0 = bytes@[4 * i] as u32;
            let ghost c1 = bytes@[4 * i + 1] as u32;
            let ghost c2 = bytes@[4 * i + 2] as u32;
            let ghost c3 = bytes@[4 * i + 3] as u32;
            assert(c0 < 256 && c1 < 256 && c2 < 256 && c3 < 256);
            let ghost ww = c0 | (c1 << 8) | (c2 << 16) | (c3 << 24);
            assert(c0 < 256 && c1 < 256 && c2 < 256 && c3 < 256 ==> (((c0 | (c1 << 8) | (c2
                << 16) | (c3 << 24)) & 0xff) == c0 && (((c0 | (c1 << 8) | (c2 << 16) | (c3
                << 24)) >> 8) & 0xff) == c1 && (((c0 | (c1 << 8) | (c2 << 16) | (c3 << 24))
                >> 16) & 0xff) == c2 && (((c0 | (c1 << 8) | (c2 << 16) | (c3 << 24)) >> 24)
                & 0xff) == c3)) by (bit_vector);
            assert(le_bytes_of_word(ww) =~= seq![
                bytes@[4 * i],
                bytes@[4 * i + 1],
                bytes@[4 * i + 2],
                bytes@[4 * i + 3],
            ]);
        }
        let ghost prev = v@;
        v.push(w);
        proof {
            assert(v@.drop_last() =~= prev);
            assert(serialize_spec(v@) =~= bytes@.take(4 * (i + 1)));
        }
        i = i + 1;
    }
    proof {
        assert(bytes@.take(4 * n as int) =~= bytes@);
    }
    Some(v)
}

} // verus!
