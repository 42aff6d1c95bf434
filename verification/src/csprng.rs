//! The byte generator of the library: the keystream of ChaCha20.
//!
//! The 128 bits of the seed are the low half of the 256-bit key, the high
//! half and the nonce are zero, and the blocks of 64 bytes are numbered by
//! a counter of 64 bits. The stream of a seed is the blocks 0, 1, 2, .. one
//! after the other, `2^70` bytes in all.

use crate::random::{ByteRandomGenerator, Seed};
use vstd::prelude::*;

verus! {

/// The number of bytes of the stream of a seed: `2^64` blocks.
pub open spec fn stream_len() -> int {
    0x40_0000_0000_0000_0000
}

/// `x` rotated to the left by `r` bits, for `0 < r < 32`.
pub open spec fn rotate_left(x: u32, r: u32) -> u32 {
    (x << r) | (x >> ((32 - r) as u32))
}

/// The quarter round of ChaCha on the words `a`, `b`, `c`, `d` of a state.
pub open spec fn quarter_round(s: Seq<u32>, a: int, b: int, c: int, d: int) -> Seq<u32> {
    let a1 = vstd::wrapping::u32_specs::wrapping_add(s[a], s[b]);
    let d1 = rotate_left(s[d] ^ a1, 16);
    let c1 = vstd::wrapping::u32_specs::wrapping_add(s[c], d1);
    let b1 = rotate_left(s[b] ^ c1, 12);
    let a2 = vstd::wrapping::u32_specs::wrapping_add(a1, b1);
    let d2 = rotate_left(d1 ^ a2, 8);
    let c2 = vstd::wrapping::u32_specs::wrapping_add(c1, d2);
    let b2 = rotate_left(b1 ^ c2, 7);
    s.update(a, a2).update(b, b2).update(c, c2).update(d, d2)
}

/// A double round of ChaCha: the four columns, then the four diagonals.
pub open spec fn double_round(s: Seq<u32>) -> Seq<u32> {
    let s = quarter_round(s, 0, 4, 8, 12);
    let s = quarter_round(s, 1, 5, 9, 13);
    let s = quarter_round(s, 2, 6, 10, 14);
    let s = quarter_round(s, 3, 7, 11, 15);
    let s = quarter_round(s, 0, 5, 10, 15);
    let s = quarter_round(s, 1, 6, 11, 12);
    let s = quarter_round(s, 2, 7, 8, 13);
    quarter_round(s, 3, 4, 9, 14)
}

/// `count` double rounds.
pub open spec fn double_rounds(s: Seq<u32>, count: nat) -> Seq<u32>
    decreases count,
{
    if count == 0 {
        s
    } else {
        double_round(double_rounds(s, (count - 1) as nat))
    }
}

/// The state that block `block` of the stream of `seed` is made from: the
/// four constants, the key, the counter and the nonce.
pub open spec fn initial_state(seed: u128, block: u64) -> Seq<u32> {
    seq![
        0x6170_7865u32,
        0x3320_646eu32,
        0x7962_2d32u32,
        0x6b20_6574u32,
        (seed % 0x1_0000_0000) as u32,
        (seed / 0x1_0000_0000 % 0x1_0000_0000) as u32,
        (seed / 0x1_0000_0000_0000_0000 % 0x1_0000_0000) as u32,
        (seed / 0x1_0000_0000_0000_0000_0000_0000) as u32,
        0u32,
        0u32,
        0u32,
        0u32,
        (block % 0x1_0000_0000) as u32,
        (block / 0x1_0000_0000) as u32,
        0u32,
        0u32,
    ]
}

/// The words of block `block` of the stream of `seed`: ten double rounds
/// on the initial state, and the initial state added to the outcome word by
/// word.
pub open spec fn block_words(seed: u128, block: u64) -> Seq<u32> {
    let start = initial_state(seed, block);
    let mixed = double_rounds(start, 10);
    Seq::new(16, |i: int| vstd::wrapping::u32_specs::wrapping_add(mixed[i], start[i]))
}

/// Byte `i` of a word, the least significant byte first.
pub open spec fn word_byte(word: u32, i: int) -> u8 {
    if i == 0 {
        (word % 0x100) as u8
    } else if i == 1 {
        (word / 0x100 % 0x100) as u8
    } else if i == 2 {
        (word / 0x1_0000 % 0x100) as u8
    } else {
        (word / 0x100_0000) as u8
    }
}

/// The 64 bytes of block `block` of the stream of `seed`: its 16 words, the
/// least significant byte of each first.
#[verifier::opaque]
pub open spec fn block_bytes(seed: u128, block: u64) -> Seq<u8> {
    Seq::new(64, |i: int| word_byte(block_words(seed, block)[i / 4], i % 4))
}

/// A block has 64 bytes.
pub proof fn lemma_block_len(seed: u128, block: u64)
    ensures
        block_bytes(seed, block).len() == 64,
{
    reveal(block_bytes);
}

/// Byte `index` of the stream of `seed`.
pub open spec fn keystream_byte(seed: u128, index: int) -> u8 {
    block_bytes(seed, (index / 64) as u64)[index % 64]
}

/// The stream of `seed` from byte `start` on.
pub open spec fn keystream_from(seed: u128, start: int) -> Seq<u8> {
    Seq::new((stream_len() - start) as nat, |i: int| keystream_byte(seed, start + i))
}

fn rotate(x: u32, r: u32) -> (y: u32)
    requires
        0 < r < 32,
    ensures
        y == rotate_left(x, r),
{
    (x << r) | (x >> (32 - r))
}

fn apply_quarter_round(state: &mut [u32], a: usize, b: usize, c: usize, d: usize)
    requires
        old(state)@.len() == 16,
        a < 16,
        b < 16,
        c < 16,
        d < 16,
    ensures
        final(state)@ == quarter_round(old(state)@, a as int, b as int, c as int, d as int),
{
    let a1 = state[a].wrapping_add(state[b]);
    let d1 = rotate(state[d] ^ a1, 16);
    let c1 = state[c].wrapping_add(d1);
    let b1 = rotate(state[b] ^ c1, 12);
    let a2 = a1.wrapping_add(b1);
    let d2 = rotate(d1 ^ a2, 8);
    let c2 = c1.wrapping_add(d2);
    let b2 = rotate(b1 ^ c2, 7);
    state[a] = a2;
    state[b] = b2;
    state[c] = c2;
    state[d] = d2;
}

fn apply_double_round(state: &mut [u32])
    requires
        old(state)@.len() == 16,
    ensures
        final(state)@ == double_round(old(state)@),
{
    apply_quarter_round(state, 0, 4, 8, 12);
    apply_quarter_round(state, 1, 5, 9, 13);
    apply_quarter_round(state, 2, 6, 10, 14);
    apply_quarter_round(state, 3, 7, 11, 15);
    apply_quarter_round(state, 0, 5, 10, 15);
    apply_quarter_round(state, 1, 6, 11, 12);
    apply_quarter_round(state, 2, 7, 8, 13);
    apply_quarter_round(state, 3, 4, 9, 14);
}

fn make_initial_state(seed: u128, block: u64) -> (state: Vec<u32>)
    ensures
        state@ == initial_state(seed, block),
{
    let mut state: Vec<u32> = Vec::new();
    state.push(0x6170_7865u32);
    state.push(0x3320_646eu32);
    state.push(0x7962_2d32u32);
    state.push(0x6b20_6574u32);
    state.push((seed % 0x1_0000_0000) as u32);
    state.push((seed / 0x1_0000_0000 % 0x1_0000_0000) as u32);
    state.push((seed / 0x1_0000_0000_0000_0000 % 0x1_0000_0000) as u32);
    state.push((seed / 0x1_0000_0000_0000_0000_0000_0000) as u32);
    state.push(0u32);
    state.push(0u32);
    state.push(0u32);
    state.push(0u32);
    state.push((block % 0x1_0000_0000) as u32);
    state.push((block / 0x1_0000_0000) as u32);
    state.push(0u32);
    state.push(0u32);
    proof {
        assert(state@ =~= initial_state(seed, block));
    }
    state
}

/// The 64 bytes of block `block` of the stream of `seed`.
pub fn generate_block(seed: u128, block: u64) -> (bytes: Vec<u8>)
    ensures
        bytes@ == block_bytes(seed, block),
{
    proof {
        reveal(block_bytes);
    }
    let start = make_initial_state(seed, block);
    let mut state = make_initial_state(seed, block);
    let mut round: usize = 0;
    while round < 10
        invariant
            round <= 10,
            state@.len() == 16,
            state@ == double_rounds(initial_state(seed, block), round as nat),
        decreases 10 - round,
    {
        apply_double_round(state.as_mut_slice());
        round += 1;
    }
    let mut bytes: Vec<u8> = Vec::new();
    let mut i: usize = 0;
    while i < 16
        invariant
            i <= 16,
            start@ == initial_state(seed, block),
            state@ == double_rounds(initial_state(seed, block), 10),
            state@.len() == 16,
            bytes@.len() == 4 * i,
            forall|j: int| 0 <= j < 4 * i ==> bytes@[j] == block_bytes(seed, block)[j],
        decreases 16 - i,
    {
        let word = state[i].wrapping_add(start[i]);
        assert(word == block_words(seed, block)[i as int]);
        bytes.push((word % 0x100) as u8);
        bytes.push((word / 0x100 % 0x100) as u8);
        bytes.push((word / 0x1_0000 % 0x100) as u8);
        bytes.push((word / 0x100_0000) as u8);
        proof {
            reveal(block_bytes);
            let expected = block_bytes(seed, block);
            assert(expected[4 * i] == word_byte(word, 0));
            assert(expected[4 * i + 1] == word_byte(word, 1));
            assert(expected[4 * i + 2] == word_byte(word, 2));
            assert(expected[4 * i + 3] == word_byte(word, 3));
        }
        i += 1;
    }
    proof {
        assert(bytes@ =~= block_bytes(seed, block));
    }
    bytes
}

/// A generator over the ChaCha20 keystream of a seed.
pub struct SoftwareRandomGenerator {
    seed: u128,
    block: u64,
    buffer: Vec<u8>,
    position: usize,
}

impl SoftwareRandomGenerator {
    #[verifier::type_invariant]
    spec fn valid(self) -> bool {
        &&& self.position <= 64
        &&& self.buffer@ == block_bytes(self.seed, self.block)
    }
}

impl ByteRandomGenerator for SoftwareRandomGenerator {
    closed spec fn pending(&self) -> Seq<u8> {
        keystream_from(self.seed, self.block * 64 + self.position)
    }

    open spec fn seeded(seed: u128) -> Seq<u8> {
        keystream_from(seed, 0)
    }

    fn new(seed: Seed) -> (generator: Self) {
        SoftwareRandomGenerator {
            seed: seed.0,
            block: 0,
            buffer: generate_block(seed.0, 0),
            position: 0,
        }
    }

    fn remaining_bytes(&self) -> (count: u128) {
        proof {
            use_type_invariant(self);
        }
        0x40_0000_0000_0000_0000u128 - (self.block as u128 * 64 + self.position as u128)
    }

    fn next_byte(&mut self) -> (byte: Option<u8>) {
        proof {
            use_type_invariant(&*self);
            lemma_block_len(self.seed, self.block);
        }
        if self.position == 64 {
            if self.block == u64::MAX {
                return None;
            }
            let block = self.block + 1;
            let buffer = generate_block(self.seed, block);
            proof {
                lemma_block_len(self.seed, block);
            }
            let byte = buffer[0];
            proof {
                assert(old(self).pending().drop_first() =~= keystream_from(
                    self.seed,
                    block * 64 + 1,
                ));
            }
            *self = SoftwareRandomGenerator { seed: self.seed, block, buffer, position: 1 };
            Some(byte)
        } else {
            let byte = self.buffer[self.position];
            proof {
                assert(old(self).pending().drop_first() =~= keystream_from(
                    self.seed,
                    self.block * 64 + self.position + 1,
                ));
            }
            self.position = self.position + 1;
            Some(byte)
        }
    }
}

} // verus!
