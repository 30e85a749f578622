//! The fingerprint hash used by the dedup structures of the merge pass.
//!
//! This application does not need a cryptographically secure hash function;
//! all that matters is throughput over short path-like byte strings and good
//! collision avoidance. The hash folds the input in little-endian chunks of
//! eight, four, two and one bytes into a rotate-xor accumulator.

use vstd::prelude::*;

verus! {

/// Rotation of a 64-bit accumulator by half its width: the two halves swap.
pub open spec fn spec_rotate_half(h: u64) -> u64 {
    ((h << 32) | (h >> 32)) as u64
}

/// One accumulation step: rotate the accumulator, then xor the chunk in.
pub open spec fn spec_hash_add(h: u64, num: u64) -> u64 {
    spec_rotate_half(h) ^ num
}

/// A little-endian 64-bit word read from eight bytes.
pub open spec fn spec_word8(s: Seq<u8>) -> u64
    recommends
        s.len() == 8,
{
    ((s[0] as u64) | ((s[1] as u64) << 8) | ((s[2] as u64) << 16) | ((s[3] as u64) << 24)
        | ((s[4] as u64) << 32) | ((s[5] as u64) << 40) | ((s[6] as u64) << 48)
        | ((s[7] as u64) << 56)) as u64
}

/// A little-endian 32-bit chunk read from four bytes.
pub open spec fn spec_word4(s: Seq<u8>) -> u64
    recommends
        s.len() == 4,
{
    ((s[0] as u64) | ((s[1] as u64) << 8) | ((s[2] as u64) << 16) | ((s[3] as u64) << 24)) as u64
}

/// A little-endian 16-bit chunk read from two bytes.
pub open spec fn spec_word2(s: Seq<u8>) -> u64
    recommends
        s.len() == 2,
{
    ((s[0] as u64) | ((s[1] as u64) << 8)) as u64
}

/// The accumulator after folding `bytes` into `h`, chunked greedily into
/// eight-byte words with four-, two- and one-byte tail chunks.
pub open spec fn spec_hash_write(h: u64, bytes: Seq<u8>) -> u64
    decreases bytes.len(),
{
    if bytes.len() >= 8 {
        spec_hash_write(spec_hash_add(h, spec_word8(bytes.take(8))), bytes.skip(8))
    } else if bytes.len() >= 4 {
        spec_hash_write(spec_hash_add(h, spec_word4(bytes.take(4))), bytes.skip(4))
    } else if bytes.len() >= 2 {
        spec_hash_write(spec_hash_add(h, spec_word2(bytes.take(2))), bytes.skip(2))
    } else if bytes.len() == 1 {
        spec_hash_add(h, bytes[0] as u64)
    } else {
        h
    }
}

/// The rotate-xor fingerprint hasher. The accumulator starts at a fixed
/// non-zero value so that all-zero input does not degenerate.
pub struct PathHasher {
    pub hash: u64,
}

impl Default for PathHasher {
    fn default() -> (r: Self)
        ensures
            r.hash == 1u64,
    {
        PathHasher { hash: 1 }
    }
}

impl PathHasher {
    /// Folds one chunk into the accumulator.
    pub fn add(&mut self, num: u64)
        ensures
            final(self).hash == spec_hash_add(old(self).hash, num),
    {
        self.hash = ((self.hash << 32) | (self.hash >> 32)) ^ num;
    }

    /// Folds a byte string into the accumulator, greedy chunks first.
    pub fn write(&mut self, bytes: &[u8])
        ensures
            final(self).hash == spec_hash_write(old(self).hash, bytes@),
    {
        let len = bytes.len();
        let mut i: usize = 0;
        proof {
            assert(bytes@.skip(0) =~= bytes@);
        }
        while len - i >= 8
            invariant
                i <= len,
                len == bytes@.len(),
                spec_hash_write(self.hash, bytes@.skip(i as int)) == spec_hash_write(
                    old(self).hash,
                    bytes@,
                ),
            decreases len - i,
        {
            let w: u64 = (bytes[i] as u64) | ((bytes[i + 1] as u64) << 8) | ((bytes[i + 2] as u64)
                << 16) | ((bytes[i + 3] as u64) << 24) | ((bytes[i + 4] as u64) << 32) | ((bytes[i
                + 5] as u64) << 40) | ((bytes[i + 6] as u64) << 48) | ((bytes[i + 7] as u64) << 56);
            proof {
                let rest = bytes@.skip(i as int);
                assert(rest.take(8) =~= bytes@.subrange(i as int, i + 8));
                assert(w == spec_word8(rest.take(8)));
                assert(rest.skip(8) =~= bytes@.skip(i + 8));
            }
            self.add(w);
            i = i + 8;
        }
        if len - i >= 4 {
            let w: u64 = (bytes[i] as u64) | ((bytes[i + 1] as u64) << 8) | ((bytes[i + 2] as u64)
                << 16) | ((bytes[i + 3] as u64) << 24);
            proof {
                let rest = bytes@.skip(i as int);
                assert(rest.take(4) =~= bytes@.subrange(i as int, i + 4));
                assert(w == spec_word4(rest.take(4)));
                assert(rest.skip(4) =~= bytes@.skip(i + 4));
            }
            self.add(w);
            i = i + 4;
            proof {
                assert(spec_hash_write(self.hash, bytes@.skip(i as int)) == spec_hash_write(
                    old(self).hash,
                    bytes@,
                ));
            }
        }
        if len - i >= 2 {
            let w: u64 = (bytes[i] as u64) | ((bytes[i + 1] as u64) << 8);
            proof {
                let rest = bytes@.skip(i as int);
                assert(rest.take(2) =~= bytes@.subrange(i as int, i + 2));
                assert(w == spec_word2(rest.take(2)));
                assert(rest.skip(2) =~= bytes@.skip(i + 2));
            }
            self.add(w);
            i = i + 2;
            proof {
                assert(spec_hash_write(self.hash, bytes@.skip(i as int)) == spec_hash_write(
                    old(self).hash,
                    bytes@,
                ));
            }
        }
        if i < len {
            let w: u64 = bytes[i] as u64;
            proof {
                let rest = bytes@.skip(i as int);
                assert(rest.len() == 1);
                assert(rest[0] == bytes@[i as int]);
                assert(rest.skip(1) =~= bytes@.skip(i + 1));
            }
            self.add(w);
            i = i + 1;
            proof {
                assert(spec_hash_write(self.hash, bytes@.skip(i as int)) == spec_hash_write(
                    old(self).hash,
                    bytes@,
                ));
            }
        }
        proof {
            assert(bytes@.skip(i as int) =~= Seq::<u8>::empty());
        }
    }

    /// The finished hash: the accumulator itself.
    pub fn finish(&self) -> (r: u64)
        ensures
            r == self.hash,
    {
        self.hash
    }
}


/// The fingerprint of one byte string: a fresh hasher fed the whole string.
/// The merge pass compares these before comparing any bytes.
pub open spec fn path_hash(s: Seq<u8>) -> u64 {
    spec_hash_write(1, s)
}

/// Computes [`path_hash`] of `v`.
pub fn path_hash_of(v: &Vec<u8>) -> (r: u64)
    ensures
        r == path_hash(v@),
{
    let mut hasher = PathHasher::default();
    hasher.write(v.as_slice());
    hasher.finish()
}

} // verus!
