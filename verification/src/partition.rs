//! Deterministic partitioning of map output across reduce buckets.
//!
//! The partition of a record depends on its key and the reducer count
//! alone — the same key always lands in the same bucket, across
//! workers, processes and retried attempts. Any deterministic, evenly
//! spreading hash serves; a polynomial rolling hash over the key's
//! code points is used here.
use vstd::prelude::*;

verus! {

/// The hash modulus: a prime, small enough that one hashing step
/// never overflows 64 bits.
pub open spec fn hash_modulus() -> int {
    1000000007
}

/// One rolling step per character, from an accumulator.
pub open spec fn key_hash_from(h: int, s: Seq<char>) -> int
    decreases s.len(),
{
    if s.len() == 0 {
        h
    } else {
        key_hash_from((h * 31 + (s[0] as u32)) % hash_modulus(), s.drop_first())
    }
}

/// The hash of a key.
pub open spec fn key_hash(s: Seq<char>) -> int {
    key_hash_from(0, s)
}

/// The reduce partition of a key: its hash modulo the reducer count.
pub open spec fn spec_partition(key: Seq<char>, n_reduce: u64) -> int {
    key_hash(key) % (n_reduce as int)
}

/// Computes the partition of a key. Deterministic: the result is a
/// function of the key and the reducer count, nothing else, so a
/// retried attempt partitions exactly as the original did.
pub fn partition_of_key(key: &str, n_reduce: u64) -> (r: u64)
    requires
        n_reduce >= 1,
    ensures
        r == spec_partition(key@, n_reduce),
        r < n_reduce,
{
    let n = key.unicode_len();
    let mut h: u64 = 0;
    let mut i: usize = 0;
    proof {
        assert(key@.skip(0) =~= key@);
    }
    while i < n
        invariant
            i <= n,
            n == key@.len(),
            h < 1000000007,
            key_hash_from(h as int, key@.skip(i as int)) == key_hash(key@),
        decreases n - i,
    {
        let c = key.get_char(i);
        proof {
            assert(key@.skip(i as int)[0] == c);
            assert(key@.skip(i as int).drop_first() =~= key@.skip(i as int + 1));
        }
        h = (h * 31 + (c as u32 as u64)) % 1000000007;
        i += 1;
    }
    proof {
        assert(key@.skip(n as int).len() == 0);
        assert(key_hash(key@) == h as int);
    }
    h % n_reduce
}

} // verus!
