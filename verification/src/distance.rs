//! Bit distance between hashes: the number of bit positions in which two
//! byte sequences of equal length differ.

use vstd::prelude::*;

verus! {

/// Largest bit distance at which two different hashes still count as similar.
pub const SIMILARITY_THRESHOLD: u32 = 5;

/// Number of one bits in a byte.
pub open spec fn bit_count(b: u8) -> nat
    decreases b,
{
    if b == 0 {
        0
    } else {
        (b % 2) as nat + bit_count(b / 2)
    }
}

/// Number of differing bits between `a` and `b`, position by position.
/// Meant for sequences of equal length; beyond the shorter one nothing is
/// counted.
pub open spec fn bit_distance(a: Seq<u8>, b: Seq<u8>) -> nat
    decreases a.len(),
{
    if a.len() == 0 || b.len() == 0 {
        0
    } else {
        bit_distance(a.drop_last(), b.drop_last()) + bit_count(a.last() ^ b.last())
    }
}

/// Whether `a` and `b` differ in at most `limit` bits.
pub open spec fn within(a: Seq<u8>, b: Seq<u8>, limit: u32) -> bool {
    bit_distance(a, b) <= limit
}

/// A byte has at most eight one bits.
pub proof fn lemma_bit_count_bound(b: u8)
    ensures
        bit_count(b) <= 8,
{
    reveal_with_fuel(bit_count, 10);
}

/// The distance between prefixes never exceeds the distance between the
/// whole sequences.
pub proof fn lemma_bit_distance_prefix(a: Seq<u8>, b: Seq<u8>, n: int)
    requires
        a.len() == b.len(),
        0 <= n <= a.len(),
    ensures
        bit_distance(a.take(n), b.take(n)) <= bit_distance(a, b),
    decreases a.len() - n,
{
    if n == a.len() {
        assert(a.take(n) =~= a);
        assert(b.take(n) =~= b);
    } else {
        lemma_bit_distance_prefix(a.drop_last(), b.drop_last(), n);
        assert(a.drop_last().take(n) =~= a.take(n));
        assert(b.drop_last().take(n) =~= b.take(n));
    }
}

/// Extending both prefixes by one position adds the bits in which that
/// position differs.
pub proof fn lemma_bit_distance_step(a: Seq<u8>, b: Seq<u8>, n: int)
    requires
        a.len() == b.len(),
        0 <= n < a.len(),
    ensures
        bit_distance(a.take(n + 1), b.take(n + 1)) == bit_distance(a.take(n), b.take(n))
            + bit_count(a[n] ^ b[n]),
{
    assert(a.take(n + 1).drop_last() =~= a.take(n));
    assert(b.take(n + 1).drop_last() =~= b.take(n));
}

/// A hash is at distance zero from itself.
pub proof fn lemma_bit_distance_self(a: Seq<u8>)
    ensures
        bit_distance(a, a) == 0,
    decreases a.len(),
{
    if a.len() > 0 {
        lemma_bit_distance_self(a.drop_last());
        let x = a.last();
        assert(x ^ x == 0) by (bit_vector);
    }
}

/// Distance does not depend on the order of its arguments.
pub proof fn lemma_bit_distance_symmetric(a: Seq<u8>, b: Seq<u8>)
    requires
        a.len() == b.len(),
    ensures
        bit_distance(a, b) == bit_distance(b, a),
    decreases a.len(),
{
    if a.len() > 0 {
        lemma_bit_distance_symmetric(a.drop_last(), b.drop_last());
        let x = a.last();
        let y = b.last();
        assert(x ^ y == y ^ x) by (bit_vector);
    }
}

/// Counts the one bits of a byte.
pub fn count_bits(b: u8) -> (n: u32)
    ensures
        n == bit_count(b),
{
    let mut rest: u8 = b;
    let mut n: u32 = 0;
    while rest != 0
        invariant
            n + bit_count(rest) == bit_count(b),
            n <= 8,
        decreases rest,
    {
        proof {
            lemma_bit_count_bound(b);
        }
        n = n + (rest % 2) as u32;
        rest = rest / 2;
    }
    n
}

/// Decides whether two hashes of equal length differ in at most `limit`
/// bits. Stops counting as soon as the limit is exceeded.
pub fn within_distance(a: &Vec<u8>, b: &Vec<u8>, limit: u32) -> (r: bool)
    requires
        a.len() == b.len(),
    ensures
        r == within(a@, b@, limit),
{
    let mut i: usize = 0;
    let mut seen: u64 = 0;
    while i < a.len()
        invariant
            a.len() == b.len(),
            0 <= i <= a.len(),
            seen == bit_distance(a@.take(i as int), b@.take(i as int)),
            seen <= limit,
        decreases a.len() - i,
    {
        let differing: u32 = count_bits(a[i] ^ b[i]);
        proof {
            lemma_bit_count_bound(a[i as int] ^ b[i as int]);
            lemma_bit_distance_step(a@, b@, i as int);
        }
        seen = seen + differing as u64;
        i = i + 1;
        if seen > limit as u64 {
            proof {
                lemma_bit_distance_prefix(a@, b@, i as int);
            }
            return false;
        }
    }
    proof {
        assert(a@.take(i as int) =~= a@);
        assert(b@.take(i as int) =~= b@);
    }
    true
}

} // verus!
