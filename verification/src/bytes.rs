//! Packing four bytes into a 32-bit word, most significant byte first.

use vstd::prelude::*;

verus! {

/// The word whose bytes, from the most significant down, are `b0 b1 b2 b3`.
pub open spec fn word_of(b0: u8, b1: u8, b2: u8, b3: u8) -> u32 {
    (b0 as int * 0x100_0000 + b1 as int * 0x1_0000 + b2 as int * 0x100 + b3 as int) as u32
}

/// The bytes of `word`, from the most significant down.
pub open spec fn bytes_of(word: u32) -> (u8, u8, u8, u8) {
    (
        (word as int / 0x100_0000) as u8,
        (word as int / 0x1_0000 % 0x100) as u8,
        (word as int / 0x100 % 0x100) as u8,
        (word as int % 0x100) as u8,
    )
}

/// Splitting a packed word gives back the bytes it was packed from.
pub proof fn lemma_bytes_of_word(b0: u8, b1: u8, b2: u8, b3: u8)
    ensures
        bytes_of(word_of(b0, b1, b2, b3)) == (b0, b1, b2, b3),
{
    let word: u32 = word_of(b0, b1, b2, b3);
    assert(word == (b0 as u32) * 0x100_0000 + (b1 as u32) * 0x1_0000 + (b2 as u32) * 0x100 + (
    b3 as u32));
    assert(word / 0x100_0000 == b0 as u32 && word / 0x1_0000 % 0x100 == b1 as u32 && word / 0x100
        % 0x100 == b2 as u32 && word % 0x100 == b3 as u32) by (bit_vector)
        requires
            word == (b0 as u32) * 0x100_0000 + (b1 as u32) * 0x1_0000 + (b2 as u32) * 0x100 + (
            b3 as u32),
    ;
}

/// Packing the bytes of a word gives the word back.
pub proof fn lemma_word_of_bytes(word: u32)
    ensures
        word_of(bytes_of(word).0, bytes_of(word).1, bytes_of(word).2, bytes_of(word).3) == word,
{
    assert(word == (word / 0x100_0000) * 0x100_0000 + (word / 0x1_0000 % 0x100) * 0x1_0000 + (word
        / 0x100 % 0x100) * 0x100 + word % 0x100 && word / 0x100_0000 < 0x100) by (bit_vector);
}

/// Packs four bytes into a word, `b0` in the top byte.
pub fn pack(b0: u8, b1: u8, b2: u8, b3: u8) -> (word: u32)
    ensures
        word == word_of(b0, b1, b2, b3),
{
    let word: u32 = ((b0 as u32) << 24) | ((b1 as u32) << 16) | ((b2 as u32) << 8) | (b3 as u32);
    assert(((b0 as u32) << 24) | ((b1 as u32) << 16) | ((b2 as u32) << 8) | (b3 as u32) == (b0 as u32)
        * 0x100_0000 + (b1 as u32) * 0x1_0000 + (b2 as u32) * 0x100 + (b3 as u32)) by (bit_vector);
    word
}

/// Splits a word into its four bytes, top byte first.
pub fn unpack(word: u32) -> (bytes: (u8, u8, u8, u8))
    ensures
        bytes == bytes_of(word),
{
    assert((word >> 24) == word / 0x100_0000 && (word >> 24) < 0x100) by (bit_vector);
    assert((word >> 16) & 0xff == word / 0x1_0000 % 0x100) by (bit_vector);
    assert((word >> 8) & 0xff == word / 0x100 % 0x100) by (bit_vector);
    assert(word & 0xff == word % 0x100) by (bit_vector);
    (
        (word >> 24) as u8,
        ((word >> 16) & 0xff) as u8,
        ((word >> 8) & 0xff) as u8,
        (word & 0xff) as u8,
    )
}

} // verus!
