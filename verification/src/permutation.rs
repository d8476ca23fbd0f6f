//! Validation and inversion of permutation arrays.
//!
//! A rule table is only usable if it is a bijection on its index range;
//! [`invert`] checks that and produces the inverse table in one linear pass.

use vstd::prelude::*;
use crate::codec::{BlockInt, block_vals};

verus! {

/// A permutation array as supplied by configuration: a full listing, by
/// position, of a claimed bijection on `[0, m)`, used as a lookup table.
#[derive(Clone, Debug, PartialEq, Eq, Hash, PartialOrd, Ord)]
pub struct PermutationArray(pub Vec<BlockInt>);

/// The value `v` occurs somewhere in `s`.
pub open spec fn appears(s: Seq<u8>, v: int) -> bool {
    exists|i: int| 0 <= i < s.len() && (s[i] as int) == v
}

/// `s` is a permutation of `[0, s.len())`: every entry is in range, no
/// value repeats, and every value in range occurs.
pub open spec fn is_permutation(s: Seq<u8>) -> bool {
    &&& forall|i: int| 0 <= i < s.len() ==> (#[trigger] s[i] as int) < s.len()
    &&& forall|i: int, j: int|
        0 <= i < s.len() && 0 <= j < s.len() && i != j ==> s[i] != s[j]
    &&& forall|v: int| 0 <= v < s.len() ==> #[trigger] appears(s, v)
}

/// `q` is the inverse of the permutation `s`: each table undoes the other.
pub open spec fn is_inverse_of(q: Seq<u8>, s: Seq<u8>) -> bool {
    &&& q.len() == s.len()
    &&& forall|i: int| 0 <= i < q.len() ==> (#[trigger] q[i] as int) < q.len()
    &&& forall|i: int| 0 <= i < s.len() ==> (q[#[trigger] s[i] as int] as int) == i
    &&& forall|i: int| 0 <= i < q.len() ==> (s[#[trigger] q[i] as int] as int) == i
}

/// Checks that `p` is a permutation of `[0, p.len())` and computes its
/// inverse `q`, with `q[p[i]] == i` and `p[q[i]] == i` for every `i`.
/// Returns `None`, and never panics, exactly when `p` has an entry out of
/// range, a duplicate entry, or a missing value.
pub fn invert(p: &Vec<BlockInt>) -> (r: Option<Vec<BlockInt>>)
    ensures
        r is Some <==> is_permutation(block_vals(p@)),
        r matches Some(q) ==> is_inverse_of(block_vals(q@), block_vals(p@)),
{
    let ghost s = block_vals(p@);
    let m = p.len();
    if m > 256 {
        // Entries are 8-bit, so the value 256, which a permutation of this
        // length would have to list, can never occur.
        assert(!appears(s, 256)) by {
            if appears(s, 256) {
                let j = choose|j: int| 0 <= j < s.len() && (s[j] as int) == 256;
            }
        }
        return None;
    }
    let mut inv: Vec<BlockInt> = vec![BlockInt(0); m];
    let mut seen: Vec<bool> = vec![false; m];
    for i in 0..m
        invariant
            m == p.len() <= 256,
            s == block_vals(p@),
            inv.len() == m,
            seen.len() == m,
            forall|v: int|
                0 <= v < m ==> (#[trigger] seen[v] <==> exists|j: int|
                    0 <= j < i && (s[j] as int) == v),
            forall|j: int| 0 <= j < i ==> (#[trigger] s[j] as int) < m,
            forall|j: int|
                0 <= j < i ==> (#[trigger] inv[s[j] as int].0 as int) == j,
            forall|j: int, k: int| 0 <= j < i && 0 <= k < i && j != k ==> s[j] != s[k],
    {
        let v = p[i].0 as usize;
        if v >= m {
            assert((s[i as int] as int) >= m);
            return None;
        }
        if seen[v] {
            let ghost j = choose|j: int| 0 <= j < i && (s[j] as int) == v;
            assert(s[j] == s[i as int] && j != i);
            return None;
        }
        seen[v] = true;
        inv[v] = BlockInt(i as u8);
    }
    let mut v: usize = 0;
    while v < m
        invariant
            m == p.len() <= 256,
            s == block_vals(p@),
            v <= m,
            inv.len() == m,
            seen.len() == m,
            forall|w: int|
                0 <= w < m ==> (#[trigger] seen[w] <==> exists|j: int|
                    0 <= j < m && (s[j] as int) == w),
            forall|j: int| 0 <= j < m ==> (#[trigger] s[j] as int) < m,
            forall|j: int|
                0 <= j < m ==> (#[trigger] inv[s[j] as int].0 as int) == j,
            forall|j: int, k: int| 0 <= j < m && 0 <= k < m && j != k ==> s[j] != s[k],
            forall|w: int| 0 <= w < v ==> #[trigger] appears(s, w),
        decreases m - v,
    {
        if !seen[v] {
            assert(!appears(s, v as int)) by {
                if appears(s, v as int) {
                    let j = choose|j: int| 0 <= j < s.len() && (s[j] as int) == v;
                }
            }
            return None;
        }
        proof {
            let j = choose|j: int| 0 <= j < m && (s[j] as int) == v;
            assert(appears(s, v as int));
        }
        v = v + 1;
    }
    assert forall|i: int| 0 <= i < m implies (s[#[trigger] block_vals(inv@)[i] as int] as int)
        == i by {
        assert(appears(s, i));
        let j = choose|j: int| 0 <= j < s.len() && (s[j] as int) == i;
        assert((inv[s[j] as int].0 as int) == j);
    }
    assert forall|i: int| 0 <= i < m implies (#[trigger] block_vals(inv@)[i] as int) < m by {
        assert(appears(s, i));
        let j = choose|j: int| 0 <= j < s.len() && (s[j] as int) == i;
        assert((inv[i].0 as int) == j);
    }
    Some(inv)
}

} // verus!
