//! The algebraic laws of the axis operations, stated over the tensor model
//! (shape and row-major cells) and proved from the relations that the
//! operations' contracts establish.

use vstd::prelude::*;

use crate::Operation;
use crate::algebra::{
    product, valid_index, flat_index, is_permutation, is_inverse_permutation, permuted_dims,
    permuted_index, transpose_rel, lemma_permuted_index_valid, lemma_unflatten, unflatten,
    unique_axes, axis_listed, op_at, lemma_op_at,
};
use crate::backend::candle::{reduce_from, reduce_op_cells, sum_cells};

verus! {

/// Round-trip law: a transpose by a permutation followed by a transpose by
/// its inverse restores the original shape and element values.  The two
/// `transpose_rel` premises are exactly what `transpose` ensures of its
/// result.
pub proof fn lemma_transpose_round_trip(
    d: Seq<usize>,
    c: Seq<int>,
    p: Seq<usize>,
    q: Seq<usize>,
    d1: Seq<usize>,
    c1: Seq<int>,
    d2: Seq<usize>,
    c2: Seq<int>,
)
    requires
        is_permutation(p, d.len() as int),
        is_inverse_permutation(p, q),
        c.len() == product(d),
        transpose_rel(d, c, p, d1, c1),
        transpose_rel(d1, c1, q, d2, c2),
    ensures
        d2 == d,
        c2 == c,
{
    let rank = d.len() as int;
    assert(d2 =~= d) by {
        assert forall|j: int| 0 <= j < rank implies d2[j] == d[j] by {
            assert(d2[j] == d1[q[j] as int]);
            assert(d1[q[j] as int] == d[p[q[j] as int] as int]);
        }
    }
    assert forall|idx: Seq<int>| #[trigger] valid_index(d, idx) implies c2[flat_index(d, idx)]
        == c[flat_index(d, idx)] by {
        let idx1 = permuted_index(idx, p);
        lemma_permuted_index_valid(d, p, idx);
        assert(valid_index(d1, idx1));
        assert(c1[flat_index(d1, idx1)] == c[flat_index(d, idx)]);
        assert(c2[flat_index(d2, permuted_index(idx1, q))] == c1[flat_index(d1, idx1)]);
        assert(permuted_index(idx1, q) =~= idx) by {
            assert forall|j: int| 0 <= j < rank implies permuted_index(idx1, q)[j] == idx[j] by {
                assert(permuted_index(idx1, q)[j] == idx1[q[j] as int]);
                assert(idx1[q[j] as int] == idx[p[q[j] as int] as int]);
            }
        }
    }
    assert(c2.len() == c.len());
    assert forall|f: int| 0 <= f < c.len() implies c2[f] == c[f] by {
        lemma_unflatten(d, f);
        let idx = unflatten(d, f);
        assert(valid_index(d, idx));
        assert(c2[flat_index(d, idx)] == c[flat_index(d, idx)]);
    }
    assert(c2 =~= c);
}

/// Reshape composes: reshaping to `s1` and then to `s2` yields the same
/// model as reshaping to `s2` directly, whenever each step preserves the
/// element count.  The premises about each step are exactly what `reshape`
/// ensures of its result.
pub proof fn lemma_reshape_composes(
    d: Seq<usize>,
    c: Seq<int>,
    s1: Seq<usize>,
    c1: Seq<int>,
    s2: Seq<usize>,
    c2: Seq<int>,
)
    requires
        product(s1) == product(d),
        c1 == c,
        product(s2) == product(s1),
        c2 == c1,
    ensures
        product(s2) == product(d),
        c2 == c,
{
}

proof fn lemma_listed_equiv(s1: Seq<(usize, Operation)>, s2: Seq<(usize, Operation)>, k: int)
    requires
        forall|pr: (usize, Operation)| s1.contains(pr) ==> s2.contains(pr),
        axis_listed(s1, k),
    ensures
        axis_listed(s2, k),
{
    let i = choose|i: int| 0 <= i < s1.len() && (#[trigger] s1[i]).0 == k;
    let pr = s1[i];
    assert(s1.contains(pr));
    assert(s2.contains(pr));
    let j = choose|j: int| 0 <= j < s2.len() && s2[j] == pr;
    assert((s2[j]).0 == k);
}

proof fn lemma_op_at_equiv(s1: Seq<(usize, Operation)>, s2: Seq<(usize, Operation)>, k: int)
    requires
        unique_axes(s1),
        unique_axes(s2),
        forall|pr: (usize, Operation)| s1.contains(pr) <==> s2.contains(pr),
        axis_listed(s1, k),
    ensures
        op_at(s1, k) == op_at(s2, k),
{
    let i = choose|i: int| 0 <= i < s1.len() && (#[trigger] s1[i]).0 == k;
    lemma_op_at(s1, i);
    let pr = s1[i];
    assert(s1.contains(pr));
    assert(s2.contains(pr));
    let j = choose|j: int| 0 <= j < s2.len() && s2[j] == pr;
    lemma_op_at(s2, j);
}

/// Reduction is insensitive to the order of the axis-operation list: two
/// lists naming the same (axis, operation) pairs, each with distinct axes,
/// reduce any tensor model to the same result.  The sorted-then-reversed
/// processing order is an implementation detail, not observable.
pub proof fn lemma_reduce_order_irrelevant(
    d: Seq<usize>,
    c: Seq<int>,
    s1: Seq<(usize, Operation)>,
    s2: Seq<(usize, Operation)>,
    k: int,
    rank: int,
)
    requires
        unique_axes(s1),
        unique_axes(s2),
        forall|pr: (usize, Operation)| s1.contains(pr) <==> s2.contains(pr),
    ensures
        reduce_from(d, c, s1, k, rank) == reduce_from(d, c, s2, k, rank),
    decreases rank - k,
{
    if k < rank {
        lemma_reduce_order_irrelevant(d, c, s1, s2, k + 1, rank);
        if axis_listed(s1, k) {
            lemma_listed_equiv(s1, s2, k);
            lemma_op_at_equiv(s1, s2, k);
        } else if axis_listed(s2, k) {
            lemma_listed_equiv(s2, s1, k);
        }
    }
}

proof fn lemma_reduce_single(
    d: Seq<usize>,
    c: Seq<int>,
    a: usize,
    op: Operation,
    k: int,
    rank: int,
)
    requires
        0 <= k <= rank,
        (a as int) < rank,
    ensures
        (a as int) >= k ==> reduce_from(d, c, seq![(a, op)], k, rank) == (
            d.remove(a as int),
            reduce_op_cells(c, d, a as int, op),
        ),
        (a as int) < k ==> reduce_from(d, c, seq![(a, op)], k, rank) == (d, c),
    decreases rank - k,
{
    let s = seq![(a, op)];
    assert(s[0] == (a, op));
    if k < rank {
        lemma_reduce_single(d, c, a, op, k + 1, rank);
        if k == a as int {
            assert((s[0]).0 as int == k);
            assert(axis_listed(s, k));
            lemma_op_at(s, 0);
        } else {
            assert(forall|i: int| 0 <= i < s.len() ==> ((#[trigger] s[i]).0 as int) != k);
            assert(!axis_listed(s, k));
        }
    }
}

/// Reducing a single axis with Sum yields exactly one native axis-sum of the
/// engine over the source model: the result a reference engine's own
/// axis-sum would give.
pub proof fn lemma_reduce_single_sum(d: Seq<usize>, c: Seq<int>, a: usize, rank: int)
    requires
        0 <= (a as int) < rank,
    ensures
        reduce_from(d, c, seq![(a, Operation::Sum)], 0, rank) == (
            d.remove(a as int),
            sum_cells(c, d, a as int),
        ),
{
    lemma_reduce_single(d, c, a, Operation::Sum, 0, rank);
}

} // verus!
