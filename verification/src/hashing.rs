//! Shard assignment: a fast non-cryptographic hash of a line's bytes,
//! taken modulo the shard count, with an optional random skew prefix.

use vstd::prelude::*;

verus! {

/// The longest byte string the hash accepts: the outside implementation
/// takes the input length as a signed 32-bit value, so anything of
/// 2^31 bytes or more must never reach it.
pub const MAX_HASH_INPUT: usize = 0x7fff_ffff;

/// The 32-bit MurmurHash3 value of a byte sequence (seed 0).
pub uninterp spec fn murmur3_of(bytes: Seq<u8>) -> u32;

/// Relies on fasthash::murmur3::hash32: the 32-bit MurmurHash3 (the x86
/// 32-bit variant, seed 0) of the given bytes, a pure function of the byte
/// sequence alone on any one machine (the implementation reads 32-bit
/// blocks in native byte order, so the value differs between little- and
/// big-endian machines; nothing here relates hashes across machines).
/// The implementation casts the slice length to `i32`, so only inputs
/// shorter than 2^31 bytes are admitted.
#[verifier::external_body]
pub(crate) fn murmur3_32(bytes: &Vec<u8>) -> (r: u32)
    requires
        bytes@.len() <= MAX_HASH_INPUT,
    ensures
        r == murmur3_of(bytes@),
{
    fasthash::murmur3::hash32(bytes.as_slice())
}

/// Relies on rand::random_range: a value drawn uniformly from `[0, bound)`,
/// which is nonempty since `bound > 0` (the call panics on an empty range).
/// Nothing is promised of which value comes back.
#[verifier::external_body]
pub(crate) fn random_below(bound: u8) -> (r: u8)
    requires
        bound > 0,
    ensures
        r < bound,
{
    rand::random_range(0..bound)
}

/// The shard that a line lands in: its hash modulo the shard count.
pub open spec fn shard_of(line: Seq<u8>, n: int) -> int {
    murmur3_of(line) as int % n
}

/// The hash input that skew injection builds: a one-byte prefix before the line.
pub open spec fn skewed_input(prefix: u8, line: Seq<u8>) -> Seq<u8> {
    seq![prefix] + line
}

/// Deterministic shard assignment: every occurrence of the same line lands
/// in the same shard.
pub fn assign_shard(line: &Vec<u8>, n: u64) -> (r: u64)
    requires
        n >= 1,
        line@.len() <= MAX_HASH_INPUT,
    ensures
        r == shard_of(line@, n as int),
        r < n,
{
    let h = murmur3_32(line);
    (h as u64) % n
}

/// Shard assignment for a line under a fixed skew prefix.
pub fn assign_shard_skewed(line: &Vec<u8>, n: u64, prefix: u8) -> (r: u64)
    requires
        n >= 1,
        line@.len() + 1 <= MAX_HASH_INPUT,
    ensures
        r == shard_of(skewed_input(prefix, line@), n as int),
        r < n,
{
    let mut buf: Vec<u8> = Vec::new();
    buf.push(prefix);
    let mut i: usize = 0;
    while i < line.len()
        invariant
            i <= line.len(),
            buf@ == seq![prefix] + line@.take(i as int),
        decreases line.len() - i,
    {
        buf.push(line[i]);
        proof {
            assert(line@.take(i + 1) =~= line@.take(i as int).push(line@[i as int]));
            assert(buf@ =~= seq![prefix] + line@.take(i + 1));
        }
        i += 1;
    }
    proof {
        assert(line@.take(line@.len() as int) =~= line@);
    }
    let h = murmur3_32(&buf);
    (h as u64) % n
}

/// Shard assignment with skew injection: a uniformly random one-byte prefix
/// in `[0, factor)` is hashed before the line, so otherwise-identical lines
/// spread across shards. Only the bound on the result holds of every draw.
pub fn assign_shard_with_skew(line: &Vec<u8>, n: u64, factor: u8) -> (r: u64)
    requires
        n >= 1,
        1 <= factor <= 26,
        line@.len() + 1 <= MAX_HASH_INPUT,
    ensures
        r < n,
        exists|p: u8| p < factor && r == shard_of(skewed_input(p, line@), n as int),
{
    let p = random_below(factor);
    let r = assign_shard_skewed(line, n, p);
    proof {
        assert(p < factor && r == shard_of(skewed_input(p, line@), n as int));
    }
    r
}

} // verus!
