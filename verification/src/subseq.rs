//! Subsequences of sequences, used to state what a lossy channel may lose.

use vstd::prelude::*;

verus! {

/// `m` maps the positions of `a` to strictly increasing positions of `b`
/// carrying the same elements.
pub open spec fn is_subseq_map<T>(m: Seq<int>, a: Seq<T>, b: Seq<T>) -> bool {
    &&& m.len() == a.len()
    &&& forall|i: int| 0 <= i < m.len() ==> 0 <= #[trigger] m[i] < b.len()
    &&& forall|i: int, j: int| 0 <= i < j < m.len() ==> #[trigger] m[i] < #[trigger] m[j]
    &&& forall|i: int| 0 <= i < m.len() ==> a[i] == b[#[trigger] m[i]]
}

/// `a` can be obtained from `b` by deleting elements, without reordering the
/// ones that remain.
pub open spec fn is_subseq_of<T>(a: Seq<T>, b: Seq<T>) -> bool {
    exists|m: Seq<int>| is_subseq_map(m, a, b)
}

/// Appending the same element on both sides preserves the relation.
pub proof fn lemma_subseq_push_both<T>(a: Seq<T>, b: Seq<T>, v: T)
    requires
        is_subseq_of(a, b),
    ensures
        is_subseq_of(a.push(v), b.push(v)),
{
    let m = choose|m: Seq<int>| is_subseq_map(m, a, b);
    let m2 = m.push(b.len() as int);
    assert(is_subseq_map(m2, a.push(v), b.push(v)));
}

/// A prefix of a subsequence of `b` is itself a subsequence of `b`.
pub proof fn lemma_subseq_take_left<T>(a: Seq<T>, b: Seq<T>, k: int)
    requires
        is_subseq_of(a, b),
        0 <= k <= a.len(),
    ensures
        is_subseq_of(a.take(k), b),
{
    let m = choose|m: Seq<int>| is_subseq_map(m, a, b);
    let m2 = m.take(k);
    assert(is_subseq_map(m2, a.take(k), b));
}

} // verus!
