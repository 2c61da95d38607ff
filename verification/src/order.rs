//! The order of hashes in the store: byte sequences compared byte by byte
//! from the front, a proper prefix coming before its extensions.

use vstd::prelude::*;

verus! {

/// `a` and `b` hold the same byte at every position below `k`.
pub open spec fn agree_below(a: Seq<u8>, b: Seq<u8>, k: int) -> bool {
    forall|j: int| #![trigger a[j]] #![trigger b[j]] 0 <= j < k ==> a[j] == b[j]
}

/// Position `k` puts `a` before `b`: they agree below `k`, and at `k` either
/// `a` has ended while `b` goes on, or `a` holds the smaller byte.
pub open spec fn decides_at(a: Seq<u8>, b: Seq<u8>, k: int) -> bool {
    &&& 0 <= k <= a.len()
    &&& k < b.len()
    &&& agree_below(a, b, k)
    &&& (k < a.len() ==> a[k] < b[k])
}

/// `a` comes strictly before `b` in byte order.
pub open spec fn precedes(a: Seq<u8>, b: Seq<u8>) -> bool {
    exists|k: int| decides_at(a, b, k)
}

/// How one hash stands to another in byte order.
#[derive(Clone, Copy, Debug, PartialEq, Eq, Structural)]
pub enum Position {
    Before,
    Same,
    After,
}

/// Where `a` stands relative to `b`.
pub open spec fn position(a: Seq<u8>, b: Seq<u8>) -> Position {
    if a == b {
        Position::Same
    } else if precedes(a, b) {
        Position::Before
    } else {
        Position::After
    }
}

/// No hash comes before itself.
pub proof fn lemma_precedes_irreflexive(a: Seq<u8>)
    ensures
        !precedes(a, a),
{
    if precedes(a, a) {
        let k = choose|k: int| decides_at(a, a, k);
        assert(a[k] < a[k]);
    }
}

/// Of two hashes at most one comes before the other.
pub proof fn lemma_precedes_asymmetric(a: Seq<u8>, b: Seq<u8>)
    ensures
        !(precedes(a, b) && precedes(b, a)),
{
    if precedes(a, b) && precedes(b, a) {
        let k1 = choose|k: int| decides_at(a, b, k);
        let k2 = choose|k: int| decides_at(b, a, k);
        if k1 < k2 {
            assert(b[k1] == a[k1]);
        } else if k2 < k1 {
            assert(a[k2] == b[k2]);
        } else {
            assert(a[k1] < b[k1] && b[k1] < a[k1]);
        }
    }
}

/// Byte order is transitive.
pub proof fn lemma_precedes_transitive(a: Seq<u8>, b: Seq<u8>, c: Seq<u8>)
    requires
        precedes(a, b),
        precedes(b, c),
    ensures
        precedes(a, c),
{
    let k1 = choose|k: int| decides_at(a, b, k);
    let k2 = choose|k: int| decides_at(b, c, k);
    let k = if k1 <= k2 { k1 } else { k2 };
    assert forall|j: int| 0 <= j < k implies a[j] == c[j] by {
        assert(a[j] == b[j]);
        assert(b[j] == c[j]);
    }
    if k < a.len() {
        if k1 < k2 {
            assert(b[k1] == c[k1]);
        } else if k2 < k1 {
            assert(a[k2] == b[k2]);
        }
        assert(a[k] < c[k]);
    }
    assert(decides_at(a, c, k));
}

/// Two hashes that agree below `n` are equal, or one of them comes before
/// the other.
proof fn lemma_total_from(a: Seq<u8>, b: Seq<u8>, n: int)
    requires
        0 <= n <= a.len(),
        n <= b.len(),
        agree_below(a, b, n),
    ensures
        a == b || precedes(a, b) || precedes(b, a),
    decreases a.len() - n,
{
    if n == a.len() {
        if n == b.len() {
            assert(a =~= b);
        } else {
            assert(decides_at(a, b, n));
        }
    } else if n == b.len() {
        assert(agree_below(b, a, n));
        assert(decides_at(b, a, n));
    } else if a[n] < b[n] {
        assert(decides_at(a, b, n));
    } else if b[n] < a[n] {
        assert(agree_below(b, a, n));
        assert(decides_at(b, a, n));
    } else {
        lemma_total_from(a, b, n + 1);
    }
}

/// Byte order is total: two different hashes are always ordered.
pub proof fn lemma_precedes_total(a: Seq<u8>, b: Seq<u8>)
    ensures
        a == b || precedes(a, b) || precedes(b, a),
{
    lemma_total_from(a, b, 0);
}

/// Compares two hashes in byte order.
pub fn compare_hashes(a: &Vec<u8>, b: &Vec<u8>) -> (p: Position)
    ensures
        p == position(a@, b@),
{
    let mut i: usize = 0;
    while i < a.len() && i < b.len()
        invariant
            0 <= i <= a.len(),
            i <= b.len(),
            agree_below(a@, b@, i as int),
        decreases a.len() - i,
    {
        if a[i] < b[i] {
            assert(decides_at(a@, b@, i as int));
            return Position::Before;
        }
        if b[i] < a[i] {
            proof {
                assert(agree_below(b@, a@, i as int));
                assert(decides_at(b@, a@, i as int));
                lemma_precedes_asymmetric(a@, b@);
            }
            return Position::After;
        }
        i = i + 1;
    }
    if a.len() == b.len() {
        assert(a@ =~= b@);
        Position::Same
    } else if a.len() < b.len() {
        assert(decides_at(a@, b@, i as int));
        Position::Before
    } else {
        proof {
            assert(agree_below(b@, a@, i as int));
            assert(decides_at(b@, a@, i as int));
            lemma_precedes_asymmetric(a@, b@);
        }
        Position::After
    }
}

} // verus!
