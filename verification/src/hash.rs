//! A fast, non-cryptographic hasher for short keys, and a hash map that uses it.
//!
//! The hasher keeps one 64-bit word of state. Integers are mixed in one word at
//! a time; a byte string is first compressed to a single word by
//! [`hash_bytes`]. Every step is specified exactly, so two hashers that are fed
//! the same writes provably end in the same state.

use vstd::prelude::*;

verus! {

/// The multiplier of the mixing step.
pub const K: u64 = 0xf1357aea2e62a9c5;

/// The first seed of the byte-string hash.
pub const SEED1: u64 = 0x243f6a8885a308d3;

/// The second seed of the byte-string hash.
pub const SEED2: u64 = 0x13198a2e03707344;

/// Keeps a block of zero bytes from collapsing the state of the byte-string hash.
pub const PREVENT_TRIVIAL_ZERO_COLLAPSE: u64 = 0xa4093822299f31d0;

/// One mixing step: add the word to the state, then multiply by [`K`], both
/// modulo 2^64.
pub open spec fn mix_word(hash: u64, word: u64) -> u64 {
    vstd::wrapping::u64_specs::wrapping_mul(vstd::wrapping::u64_specs::wrapping_add(hash, word), K)
}

/// The digest of a state: the state rotated left by 26 bits.
pub open spec fn digest_of(hash: u64) -> u64 {
    (hash << 26) | (hash >> 38)
}

/// The low half of the 128-bit product of `x` and `y`, xor its high half.
pub open spec fn multiply_mix_spec(x: u64, y: u64) -> u64 {
    let full = ((x as int) * (y as int)) as u128;
    (full as u64) ^ ((full >> 64) as u64)
}

/// The 64-bit little-endian word that starts at `off`.
pub open spec fn le_u64(s: Seq<u8>, off: int) -> u64 {
    (s[off] as u64) | ((s[off + 1] as u64) << 8) | ((s[off + 2] as u64) << 16) | ((s[off
        + 3] as u64) << 24) | ((s[off + 4] as u64) << 32) | ((s[off + 5] as u64) << 40) | ((s[off
        + 6] as u64) << 48) | ((s[off + 7] as u64) << 56)
}

/// The 32-bit little-endian word that starts at `off`, widened to 64 bits.
pub open spec fn le_u32(s: Seq<u8>, off: int) -> u64 {
    (s[off] as u64) | ((s[off + 1] as u64) << 8) | ((s[off + 2] as u64) << 16) | ((s[off
        + 3] as u64) << 24)
}

/// The pair of state words after the 16-byte blocks from `off` on, all but the
/// last 16 bytes of the string, have been absorbed into `(s0, s1)`.
pub open spec fn absorb_blocks(s: Seq<u8>, off: int, s0: u64, s1: u64) -> (u64, u64)
    decreases s.len() - off,
{
    if 0 <= off && off + 16 < s.len() {
        let x = le_u64(s, off);
        let y = le_u64(s, off + 8);
        absorb_blocks(
            s,
            off + 16,
            s1,
            multiply_mix_spec(s0 ^ x, PREVENT_TRIVIAL_ZERO_COLLAPSE ^ y),
        )
    } else {
        (s0, s1)
    }
}

/// The pair of state words once the whole string has been absorbed.
///
/// Up to 16 bytes are read as two overlapping words from the two ends of the
/// string (for fewer than four bytes: the first byte, and the last and middle
/// bytes). A longer string is absorbed block by block, and its last 16 bytes
/// are then read as two words.
pub open spec fn absorbed(s: Seq<u8>) -> (u64, u64) {
    let len = s.len() as int;
    if len > 16 {
        let (s0, s1) = absorb_blocks(s, 0, SEED1, SEED2);
        (s0 ^ le_u64(s, len - 16), s1 ^ le_u64(s, len - 8))
    } else if len >= 8 {
        (SEED1 ^ le_u64(s, 0), SEED2 ^ le_u64(s, len - 8))
    } else if len >= 4 {
        (SEED1 ^ le_u32(s, 0), SEED2 ^ le_u32(s, len - 4))
    } else if len > 0 {
        (SEED1 ^ (s[0] as u64), SEED2 ^ (((s[len - 1] as u64) << 8) | (s[len / 2] as u64)))
    } else {
        (SEED1, SEED2)
    }
}

/// The 64-bit hash of a byte string: the two absorbed words multiplied and
/// folded, xor the length of the string.
pub open spec fn hash_bytes_spec(s: Seq<u8>) -> u64 {
    let (s0, s1) = absorbed(s);
    multiply_mix_spec(s0, s1) ^ (s.len() as u64)
}

/// Multiplies two words to 128 bits and folds the product to 64 bits.
pub fn multiply_mix(x: u64, y: u64) -> (r: u64)
    ensures
        r == multiply_mix_spec(x, y),
{
    assert((x as int) * (y as int) <= 0xffff_ffff_ffff_ffff * 0xffff_ffff_ffff_ffff)
        by (nonlinear_arith)
        requires
            0 <= x <= 0xffff_ffff_ffff_ffff,
            0 <= y <= 0xffff_ffff_ffff_ffff,
    ;
    let full: u128 = (x as u128) * (y as u128);
    let lo: u64 = #[verifier::truncate]
    (full as u64);
    let hi: u64 = #[verifier::truncate]
    ((full >> 64) as u64);
    lo ^ hi
}

fn read_u64(bytes: &[u8], off: usize) -> (r: u64)
    requires
        off + 8 <= bytes@.len(),
    ensures
        r == le_u64(bytes@, off as int),
{
    (bytes[off] as u64) | ((bytes[off + 1] as u64) << 8) | ((bytes[off + 2] as u64) << 16) | ((
    bytes[off + 3] as u64) << 24) | ((bytes[off + 4] as u64) << 32) | ((bytes[off + 5] as u64)
        << 40) | ((bytes[off + 6] as u64) << 48) | ((bytes[off + 7] as u64) << 56)
}

fn read_u32(bytes: &[u8], off: usize) -> (r: u64)
    requires
        off + 4 <= bytes@.len(),
    ensures
        r == le_u32(bytes@, off as int),
{
    (bytes[off] as u64) | ((bytes[off + 1] as u64) << 8) | ((bytes[off + 2] as u64) << 16) | ((
    bytes[off + 3] as u64) << 24)
}

/// Hashes a byte string to one word. Meant for short strings: it is fast and
/// small, and makes no attempt to resist collisions.
pub fn hash_bytes(bytes: &[u8]) -> (r: u64)
    ensures
        r == hash_bytes_spec(bytes@),
{
    let len = bytes.len();
    let mut s0: u64 = SEED1;
    let mut s1: u64 = SEED2;
    if len <= 16 {
        if len >= 8 {
            s0 = s0 ^ read_u64(bytes, 0);
            s1 = s1 ^ read_u64(bytes, len - 8);
        } else if len >= 4 {
            s0 = s0 ^ read_u32(bytes, 0);
            s1 = s1 ^ read_u32(bytes, len - 4);
        } else if len > 0 {
            let lo = bytes[0];
            let mid = bytes[len / 2];
            let hi = bytes[len - 1];
            s0 = s0 ^ (lo as u64);
            s1 = s1 ^ (((hi as u64) << 8) | (mid as u64));
        }
    } else {
        let mut off: usize = 0;
        while off < len - 16
            invariant
                len == bytes@.len(),
                len > 16,
                off <= len,
                absorb_blocks(bytes@, 0, SEED1, SEED2) == absorb_blocks(bytes@, off as int, s0, s1),
            decreases len - off,
        {
            let x = read_u64(bytes, off);
            let y = read_u64(bytes, off + 8);
            let t = multiply_mix(s0 ^ x, PREVENT_TRIVIAL_ZERO_COLLAPSE ^ y);
            s0 = s1;
            s1 = t;
            off += 16;
        }
        s0 = s0 ^ read_u64(bytes, len - 16);
        s1 = s1 ^ read_u64(bytes, len - 8);
    }
    multiply_mix(s0, s1) ^ (len as u64)
}

/// A multiplicative hasher with one word of state.
#[derive(Clone)]
pub struct FxHasher {
    hash: u64,
}

impl FxHasher {
    /// The current state of the hasher.
    pub closed spec fn state(&self) -> u64 {
        self.hash
    }

    fn add_to_hash(&mut self, i: u64)
        ensures
            final(self).state() == mix_word(old(self).state(), i),
    {
        self.hash = self.hash.wrapping_add(i).wrapping_mul(K);
    }
}

impl Default for FxHasher {
    /// A hasher in the initial state, zero.
    fn default() -> (r: FxHasher)
        ensures
            r.state() == 0,
    {
        FxHasher { hash: 0 }
    }
}

impl std::hash::Hasher for FxHasher {
    /// Mixes in the hash of a byte string.
    fn write(&mut self, bytes: &[u8])
        ensures
            final(self).state() == mix_word(old(self).state(), hash_bytes_spec(bytes@)),
    {
        self.add_to_hash(hash_bytes(bytes));
    }

    fn write_u8(&mut self, i: u8)
        ensures
            final(self).state() == mix_word(old(self).state(), i as u64),
    {
        self.add_to_hash(i as u64);
    }

    fn write_u16(&mut self, i: u16)
        ensures
            final(self).state() == mix_word(old(self).state(), i as u64),
    {
        self.add_to_hash(i as u64);
    }

    fn write_u32(&mut self, i: u32)
        ensures
            final(self).state() == mix_word(old(self).state(), i as u64),
    {
        self.add_to_hash(i as u64);
    }

    fn write_u64(&mut self, i: u64)
        ensures
            final(self).state() == mix_word(old(self).state(), i),
    {
        self.add_to_hash(i);
    }

    /// Mixes in the low word, then the high word.
    fn write_u128(&mut self, i: u128)
        ensures
            final(self).state() == mix_word(
                mix_word(old(self).state(), i as u64),
                (i >> 64) as u64,
            ),
    {
        let lo: u64 = #[verifier::truncate]
        (i as u64);
        let hi: u64 = #[verifier::truncate]
        ((i >> 64) as u64);
        self.add_to_hash(lo);
        self.add_to_hash(hi);
    }

    fn write_usize(&mut self, i: usize)
        ensures
            final(self).state() == mix_word(old(self).state(), i as u64),
    {
        self.add_to_hash(i as u64);
    }

    /// The digest of what has been written so far. The hasher can go on.
    fn finish(&self) -> (r: u64)
        ensures
            r == digest_of(self.state()),
    {
        (self.hash << 26) | (self.hash >> 38)
    }
}

/// A hash map whose hasher is [`FxHasher`].
pub type FxHashMap<K, V> = std::collections::HashMap<K, V, std::hash::BuildHasherDefault<FxHasher>>;

} // verus!
