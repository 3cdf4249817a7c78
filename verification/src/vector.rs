//! Packed binary serialization of embedding vectors.
//!
//! An embedding vector travels through the library as the raw bit patterns
//! of its single-precision components, one 32-bit word per component. At
//! rest a vector is a packed sequence of 4-byte little-endian words, which
//! is what gets encrypted; a decrypted payload whose length is not a whole
//! multiple of four marks the row unreadable.

use vstd::prelude::*;

verus! {

/// The four little-endian bytes of one 32-bit word.
pub open spec fn le_bytes_of_word(w: u32) -> Seq<u8> {
    seq![
        (w & 0xFF) as u8,
        ((w >> 8) & 0xFF) as u8,
        ((w >> 16) & 0xFF) as u8,
        ((w >> 24) & 0xFF) as u8,
    ]
}

/// The 32-bit word four little-endian bytes stand for.
pub open spec fn word_of_le_bytes(b0: u8, b1: u8, b2: u8, b3: u8) -> u32 {
    (b0 as u32) | ((b1 as u32) << 8) | ((b2 as u32) << 16) | ((b3 as u32) << 24)
}

/// The packed little-endian serialization of a vector of words.
pub open spec fn packed_bytes_of(v: Seq<u32>) -> Seq<u8>
    decreases v.len(),
{
    if v.len() == 0 {
        Seq::empty()
    } else {
        le_bytes_of_word(v[0]) + packed_bytes_of(v.drop_first())
    }
}

/// The words a packed payload stands for, reading four bytes per word.
pub open spec fn unpacked_words_of(b: Seq<u8>) -> Seq<u32> {
    Seq::new(b.len() / 4, |i: int| word_of_le_bytes(b[4 * i], b[4 * i + 1], b[4 * i + 2], b[4 * i + 3]))
}

/// Reassembling the four little-endian bytes of a word gives the word back.
proof fn lemma_word_round_trip(w: u32)
    ensures
        word_of_le_bytes(
            (w & 0xFF) as u8,
            ((w >> 8) & 0xFF) as u8,
            ((w >> 16) & 0xFF) as u8,
            ((w >> 24) & 0xFF) as u8,
        ) == w,
{
    assert((((w & 0xFF) as u8) as u32) | (((((w >> 8) & 0xFF) as u8) as u32) << 8) | (((((w >> 16)
        & 0xFF) as u8) as u32) << 16) | (((((w >> 24) & 0xFF) as u8) as u32) << 24) == w)
        by (bit_vector);
}

/// A packed vector is four bytes per word.
pub proof fn lemma_packed_len(v: Seq<u32>)
    ensures
        packed_bytes_of(v).len() == 4 * v.len(),
    decreases v.len(),
{
    if v.len() > 0 {
        lemma_packed_len(v.drop_first());
    }
}

/// Packing one more word appends its four bytes.
pub proof fn lemma_pack_push(s: Seq<u32>, w: u32)
    ensures
        packed_bytes_of(s.push(w)) =~= packed_bytes_of(s) + le_bytes_of_word(w),
    decreases s.len(),
{
    assert(s.push(w)[s.len() as int] == w);
    if s.len() == 0 {
        assert(s.push(w).drop_first() =~= Seq::<u32>::empty());
        assert(packed_bytes_of(Seq::<u32>::empty()) =~= Seq::<u8>::empty());
        assert(s =~= Seq::<u32>::empty());
        assert(packed_bytes_of(s.push(w)) == le_bytes_of_word(w) + packed_bytes_of(
            Seq::<u32>::empty(),
        ));
        assert(packed_bytes_of(s.push(w)) =~= packed_bytes_of(s) + le_bytes_of_word(w));
    } else {
        assert(s.push(w)[0] == s[0]);
        assert(s.push(w).drop_first() =~= s.drop_first().push(w));
        lemma_pack_push(s.drop_first(), w);
        assert(packed_bytes_of(s.push(w)) == le_bytes_of_word(s[0]) + (packed_bytes_of(
            s.drop_first(),
        ) + le_bytes_of_word(w)));
        assert(packed_bytes_of(s) == le_bytes_of_word(s[0]) + packed_bytes_of(s.drop_first()));
        assert(packed_bytes_of(s.push(w)) =~= packed_bytes_of(s) + le_bytes_of_word(w));
    }
}

/// The four bytes of the packed form at word position `i` are the bytes of
/// the word at position `i`.
proof fn lemma_packed_slice(v: Seq<u32>, i: int)
    requires
        0 <= i < v.len(),
    ensures
        packed_bytes_of(v).subrange(4 * i, 4 * i + 4) =~= le_bytes_of_word(v[i]),
    decreases i,
{
    lemma_packed_len(v);
    lemma_packed_len(v.drop_first());
    if i == 0 {
        assert(packed_bytes_of(v).subrange(0, 4) =~= le_bytes_of_word(v[0]));
    } else {
        lemma_packed_slice(v.drop_first(), i - 1);
        assert(packed_bytes_of(v).subrange(4 * i, 4 * i + 4) =~= packed_bytes_of(
            v.drop_first(),
        ).subrange(4 * (i - 1), 4 * (i - 1) + 4));
    }
}

/// Serialization round trip: unpacking a packed vector gives the vector
/// back, and the packed form always has a length divisible by four.
pub proof fn lemma_unpack_pack(v: Seq<u32>)
    ensures
        packed_bytes_of(v).len() == 4 * v.len(),
        packed_bytes_of(v).len() % 4 == 0,
        unpacked_words_of(packed_bytes_of(v)) =~= v,
{
    lemma_packed_len(v);
    let pb = packed_bytes_of(v);
    let u = unpacked_words_of(pb);
    assert forall|i: int| 0 <= i < v.len() implies u[i] == v[i] by {
        lemma_packed_slice(v, i);
        let slice = pb.subrange(4 * i, 4 * i + 4);
        assert(pb[4 * i] == slice[0]);
        assert(pb[4 * i + 1] == slice[1]);
        assert(pb[4 * i + 2] == slice[2]);
        assert(pb[4 * i + 3] == slice[3]);
        lemma_word_round_trip(v[i]);
    };
    assert(u =~= v);
}

/// Packs a vector of words into its little-endian byte serialization.
pub fn pack_words(v: &Vec<u32>) -> (r: Vec<u8>)
    ensures
        r@ == packed_bytes_of(v@),
        r@.len() == 4 * v@.len(),
{
    let mut out: Vec<u8> = Vec::new();
    let mut i: usize = 0;
    while i < v.len()
        invariant
            i <= v@.len(),
            out@ =~= packed_bytes_of(v@.take(i as int)),
        decreases v@.len() - i,
    {
        let w = v[i];
        proof {
            assert(w & 0xFF < 256 && (w >> 8) & 0xFF < 256 && (w >> 16) & 0xFF < 256 && (w >> 24)
                & 0xFF < 256) by (bit_vector);
        }
        out.push((w & 0xFF) as u8);
        out.push(((w >> 8) & 0xFF) as u8);
        out.push(((w >> 16) & 0xFF) as u8);
        out.push(((w >> 24) & 0xFF) as u8);
        proof {
            lemma_pack_push(v@.take(i as int), v@[i as int]);
            assert(v@.take(i as int + 1) =~= v@.take(i as int).push(v@[i as int]));
        }
        i += 1;
    }
    proof {
        assert(v@.take(v@.len() as int) =~= v@);
        lemma_packed_len(v@);
    }
    out
}

/// Unpacks a packed payload back into words; nothing for a payload whose
/// length is not a whole multiple of four.
pub fn unpack_words(b: &Vec<u8>) -> (r: Option<Vec<u32>>)
    ensures
        match r {
            Some(v) => b@.len() % 4 == 0 && v@ == unpacked_words_of(b@),
            None => b@.len() % 4 != 0,
        },
{
    if b.len() % 4 != 0 {
        return None;
    }
    let mut out: Vec<u32> = Vec::new();
    let mut j: usize = 0;
    while j < b.len()
        invariant
            b@.len() % 4 == 0,
            j % 4 == 0,
            j <= b@.len(),
            out@ =~= unpacked_words_of(b@).take(j as int / 4),
        decreases b@.len() - j,
    {
        let w = (b[j] as u32) | ((b[j + 1] as u32) << 8) | ((b[j + 2] as u32) << 16) | ((b[j + 3]
            as u32) << 24);
        out.push(w);
        proof {
            let u = unpacked_words_of(b@);
            let i = j as int / 4;
            assert(4 * i == j as int);
            assert(u[i] == w);
            assert(u.take(i + 1) =~= u.take(i).push(u[i]));
            assert((j as int + 4) / 4 == i + 1);
        }
        j += 4;
    }
    proof {
        assert(j as int / 4 == unpacked_words_of(b@).len());
        assert(unpacked_words_of(b@).take(unpacked_words_of(b@).len() as int) =~= unpacked_words_of(
            b@,
        ));
    }
    Some(out)
}

} // verus!
