//! Vectors as bit patterns: which components are finite, and how the
//! components are laid out in bytes.

use vstd::prelude::*;

verus! {

/// Whether a bit pattern stands for a finite single-precision number: its
/// eight exponent bits are not all set.
pub open spec fn finite_bits(bits: u32) -> bool {
    (bits >> 23) & 0xff != 0xff
}

/// Whether every component of a vector is finite.
pub open spec fn all_finite(vector: Seq<u32>) -> bool {
    forall|i: int| 0 <= i < vector.len() ==> finite_bits(#[trigger] vector[i])
}

/// Whether vectors of `dimensions` components can be written out on this
/// machine: the text of their bytes has a length that a machine word holds.
pub open spec fn storable_dimensions(dimensions: nat) -> bool {
    dimensions <= usize::MAX / 8
}

/// Whether vectors of `dimensions` components can be written out on this
/// machine.
pub fn is_storable_dimensions(dimensions: usize) -> (r: bool)
    ensures
        r == storable_dimensions(dimensions as nat),
{
    dimensions <= usize::MAX / 8
}

/// Byte `k` of a word, counted from the least significant one.
pub open spec fn byte_at(word: u32, k: int) -> u8 {
    if k == 0 {
        (word & 0xff) as u8
    } else if k == 1 {
        ((word >> 8) & 0xff) as u8
    } else if k == 2 {
        ((word >> 16) & 0xff) as u8
    } else {
        ((word >> 24) & 0xff) as u8
    }
}

/// The word whose bytes are `b0` to `b3`, least significant first.
pub open spec fn word_of(b0: u8, b1: u8, b2: u8, b3: u8) -> u32 {
    (b0 as u32) | (b1 as u32) << 8 | (b2 as u32) << 16 | (b3 as u32) << 24
}

/// The little-endian bytes of a vector's components, four for each.
pub open spec fn le_bytes(words: Seq<u32>) -> Seq<u8> {
    Seq::new(4 * words.len(), |i: int| byte_at(words[i / 4], i % 4))
}

/// The words that a run of little-endian bytes holds, one for every four
/// bytes.
pub open spec fn le_words(bytes: Seq<u8>) -> Seq<u32> {
    Seq::new(
        bytes.len() / 4,
        |i: int| word_of(bytes[4 * i], bytes[4 * i + 1], bytes[4 * i + 2], bytes[4 * i + 3]),
    )
}

/// A word is put together again from its four bytes.
pub proof fn lemma_word_of_bytes(word: u32)
    ensures
        word_of(byte_at(word, 0), byte_at(word, 1), byte_at(word, 2), byte_at(word, 3)) == word,
{
    assert(((word & 0xff) as u8 as u32) | (((word >> 8) & 0xff) as u8 as u32) << 8 | (((word >> 16)
        & 0xff) as u8 as u32) << 16 | (((word >> 24) & 0xff) as u8 as u32) << 24 == word)
        by (bit_vector);
}

/// The four bytes of a word put together from bytes are those bytes.
pub proof fn lemma_bytes_of_word(b0: u8, b1: u8, b2: u8, b3: u8)
    ensures
        byte_at(word_of(b0, b1, b2, b3), 0) == b0,
        byte_at(word_of(b0, b1, b2, b3), 1) == b1,
        byte_at(word_of(b0, b1, b2, b3), 2) == b2,
        byte_at(word_of(b0, b1, b2, b3), 3) == b3,
{
    let w = word_of(b0, b1, b2, b3);
    assert(w == (b0 as u32) | (b1 as u32) << 8 | (b2 as u32) << 16 | (b3 as u32) << 24 ==> (w
        & 0xff) as u8 == b0 && ((w >> 8) & 0xff) as u8 == b1 && ((w >> 16) & 0xff) as u8 == b2 && (
    (w >> 24) & 0xff) as u8 == b3) by (bit_vector);
}

/// Reading back the bytes of a vector gives the vector.
pub proof fn lemma_words_of_bytes(words: Seq<u32>)
    ensures
        le_bytes(words).len() == 4 * words.len(),
        le_words(le_bytes(words)) == words,
{
    let bytes = le_bytes(words);
    assert forall|i: int| 0 <= i < words.len() implies le_words(bytes)[i] == words[i] by {
        lemma_word_of_bytes(words[i]);
    }
}

/// Writing out the words read from whole groups of four bytes gives the
/// bytes.
pub proof fn lemma_bytes_of_words(bytes: Seq<u8>)
    requires
        bytes.len() % 4 == 0,
    ensures
        le_words(bytes).len() * 4 == bytes.len(),
        le_bytes(le_words(bytes)) == bytes,
{
    let words = le_words(bytes);
    assert forall|i: int| 0 <= i < bytes.len() implies le_bytes(words)[i] == bytes[i] by {
        let q = i / 4;
        lemma_bytes_of_word(bytes[4 * q], bytes[4 * q + 1], bytes[4 * q + 2], bytes[4 * q + 3]);
    }
}

/// Whether `bits` stands for a finite number.
pub fn is_finite_bits(bits: u32) -> (r: bool)
    ensures
        r == finite_bits(bits),
{
    (bits >> 23) & 0xff != 0xff
}

/// Whether every component of `vector` is finite.
pub fn is_all_finite(vector: &Vec<u32>) -> (r: bool)
    ensures
        r == all_finite(vector@),
{
    let mut i: usize = 0;
    while i < vector.len()
        invariant
            i <= vector.len(),
            forall|j: int| 0 <= j < i ==> finite_bits(#[trigger] vector@[j]),
        decreases vector.len() - i,
    {
        if !is_finite_bits(vector[i]) {
            return false;
        }
        i += 1;
    }
    true
}

/// The little-endian bytes of `words`.
pub fn words_to_le_bytes(words: &Vec<u32>) -> (bytes: Vec<u8>)
    requires
        words.len() <= usize::MAX / 4,
    ensures
        bytes@ == le_bytes(words@),
{
    let mut bytes: Vec<u8> = Vec::new();
    let mut i: usize = 0;
    while i < words.len()
        invariant
            i <= words.len(),
            bytes@ == le_bytes(words@.take(i as int)),
        decreases words.len() - i,
    {
        let w: u32 = words[i];
        bytes.push((w & 0xff) as u8);
        bytes.push(((w >> 8) & 0xff) as u8);
        bytes.push(((w >> 16) & 0xff) as u8);
        bytes.push(((w >> 24) & 0xff) as u8);
        proof {
            let b = words@.take(i + 1);
            assert forall|j: int| 0 <= j < 4 * b.len() implies bytes@[j] == le_bytes(b)[j] by {}
        }
        i += 1;
    }
    bytes
}

/// The words that `bytes` holds, where it is made of whole groups of four
/// bytes for exactly `count` words.
pub fn words_from_le_bytes(bytes: &Vec<u8>, count: usize) -> (r: Option<Vec<u32>>)
    ensures
        r is Some <==> bytes.len() == 4 * count,
        r is Some ==> r->0@ == le_words(bytes@),
{
    if count > usize::MAX / 4 || bytes.len() != 4 * count {
        return None;
    }
    let mut words: Vec<u32> = Vec::new();
    let mut i: usize = 0;
    while i < count
        invariant
            i <= count,
            bytes.len() == 4 * count,
            words@ == le_words(bytes@).take(i as int),
        decreases count - i,
    {
        let b0: u8 = bytes[4 * i];
        let b1: u8 = bytes[4 * i + 1];
        let b2: u8 = bytes[4 * i + 2];
        let b3: u8 = bytes[4 * i + 3];
        let w: u32 = (b0 as u32) | (b1 as u32) << 8 | (b2 as u32) << 16 | (b3 as u32) << 24;
        words.push(w);
        i += 1;
    }
    Some(words)
}

} // verus!
