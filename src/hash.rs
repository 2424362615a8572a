//! The djb2 string hash.

use vstd::prelude::*;
use vstd::string::StringSliceAdditionalSpecFns;

verus! {

/// Initial value of the djb2 accumulator.
pub const DJB2_HASH: usize = 5381;

/// 2^64: the modulus under which the accumulator wraps.
pub open spec fn word_modulus() -> int {
    0x1_0000_0000_0000_0000
}

/// The djb2 hash of a byte sequence: start at `DJB2_HASH` and, for each byte in
/// order, multiply by 33 and add the byte, modulo 2^64.
pub open spec fn djb2_of(bytes: Seq<u8>) -> u64
    decreases bytes.len(),
{
    if bytes.len() == 0 {
        DJB2_HASH as u64
    } else {
        let h = djb2_of(bytes.drop_last());
        ((h as int * 33 + bytes.last() as int) % word_modulus()) as u64
    }
}

/// One step of the accumulator, `(h << 5) + h + b` with wrapping additions, is
/// `h * 33 + b` modulo 2^64.
proof fn lemma_step(h: u64, b: u8)
    ensures
        (h << 5u64).wrapping_add(h).wrapping_add(b as u64) as int
            == (h as int * 33 + b as int) % word_modulus(),
{
    assert((h << 5u64) as int == (h as int * 32) % 0x1_0000_0000_0000_0000) by (bit_vector);
    assert(((h << 5u64).wrapping_add(h).wrapping_add(b as u64)) as int
        == ((h << 5u64) as int + h as int + b as int) % 0x1_0000_0000_0000_0000) by (bit_vector);
    assert(((h as int * 32) % 0x1_0000_0000_0000_0000 + h as int + b as int) % 0x1_0000_0000_0000_0000
        == (h as int * 33 + b as int) % 0x1_0000_0000_0000_0000) by (nonlinear_arith);
}

/// Hashes the UTF-8 bytes of `key` with djb2; arithmetic wraps modulo 2^64.
pub fn dbj2(key: &str) -> (r: u64)
    ensures
        r == djb2_of(key.spec_bytes()),
{
    let bytes = key.as_bytes();
    let mut hash: u64 = DJB2_HASH as u64;
    let mut i: usize = 0;
    while i < bytes.len()
        invariant
            0 <= i <= bytes@.len(),
            bytes@ == key.spec_bytes(),
            hash == djb2_of(bytes@.subrange(0, i as int)),
        decreases bytes@.len() - i,
    {
        let byte = bytes[i];
        proof {
            lemma_step(hash, byte);
            let next = bytes@.subrange(0, i + 1);
            assert(next.drop_last() =~= bytes@.subrange(0, i as int));
        }
        hash = (hash << 5).wrapping_add(hash).wrapping_add(byte as u64);
        i = i + 1;
    }
    assert(bytes@.subrange(0, i as int) =~= bytes@);
    hash
}

} // verus!
