//! Pure axis bookkeeping: shapes, row-major index arithmetic, permutations,
//! and the well-formedness conditions of reduction and broadcast argument
//! lists.  Everything here is engine-independent mathematics.

use vstd::prelude::*;
use vstd::arithmetic::div_mod::{lemma_fundamental_div_mod, lemma_mod_bound};

use crate::Operation;

verus! {

/// The element count of a shape: the product of its axis lengths.
pub open spec fn product(dims: Seq<usize>) -> int
    decreases dims.len(),
{
    if dims.len() == 0 {
        1
    } else {
        product(dims.drop_last()) * (dims.last() as int)
    }
}

pub proof fn lemma_product_nonneg(dims: Seq<usize>)
    ensures
        product(dims) >= 0,
    decreases dims.len(),
{
    if dims.len() > 0 {
        lemma_product_nonneg(dims.drop_last());
        assert(product(dims.drop_last()) * (dims.last() as int) >= 0) by (nonlinear_arith)
            requires
                product(dims.drop_last()) >= 0,
                dims.last() as int >= 0,
        ;
    }
}

/// A shape whose axes all have length at least one holds at least one element.
pub proof fn lemma_product_positive(dims: Seq<usize>)
    requires
        forall|i: int| 0 <= i < dims.len() ==> #[trigger] dims[i] >= 1,
    ensures
        product(dims) >= 1,
    decreases dims.len(),
{
    if dims.len() > 0 {
        assert(forall|i: int|
            0 <= i < dims.drop_last().len() ==> #[trigger] dims.drop_last()[i] >= 1);
        lemma_product_positive(dims.drop_last());
        assert(product(dims.drop_last()) * (dims.last() as int) >= 1) by (nonlinear_arith)
            requires
                product(dims.drop_last()) >= 1,
                dims.last() as int >= 1,
        ;
    }
}

/// A shape with a zero-length axis holds no elements.
pub proof fn lemma_product_zero_axis(dims: Seq<usize>, i: int)
    requires
        0 <= i < dims.len(),
        dims[i] == 0,
    ensures
        product(dims) == 0,
    decreases dims.len(),
{
    if i == dims.len() - 1 {
        assert(product(dims) == product(dims.drop_last()) * 0);
    } else {
        lemma_product_zero_axis(dims.drop_last(), i);
    }
}

/// The element count splits at any cut point of the shape.
pub proof fn lemma_product_split(dims: Seq<usize>, k: int)
    requires
        0 <= k <= dims.len(),
    ensures
        product(dims) == product(dims.take(k)) * product(dims.skip(k)),
    decreases dims.len(),
{
    if k == dims.len() {
        assert(dims.take(k) =~= dims);
        assert(dims.skip(k) =~= Seq::<usize>::empty());
    } else {
        let dl = dims.drop_last();
        lemma_product_split(dl, k);
        assert(dl.take(k) =~= dims.take(k));
        assert(dims.skip(k).drop_last() =~= dl.skip(k));
        assert(dims.skip(k).last() == dims.last());
        assert(product(dims.skip(k)) == product(dl.skip(k)) * (dims.last() as int));
        assert(product(dims.take(k)) * (product(dl.skip(k)) * (dims.last() as int))
            == (product(dims.take(k)) * product(dl.skip(k))) * (dims.last() as int))
            by (nonlinear_arith);
    }
}

/// A multi-dimensional index: one coordinate per axis, each within its length.
pub open spec fn valid_index(dims: Seq<usize>, idx: Seq<int>) -> bool {
    &&& idx.len() == dims.len()
    &&& forall|k: int| 0 <= k < dims.len() ==> 0 <= #[trigger] idx[k] < dims[k]
}

/// The row-major offset of a multi-dimensional index, axis 0 outermost.
pub open spec fn flat_index(dims: Seq<usize>, idx: Seq<int>) -> int
    decreases dims.len(),
{
    if dims.len() == 0 {
        0
    } else {
        flat_index(dims.drop_last(), idx.drop_last()) * (dims.last() as int) + idx.last()
    }
}

/// The multi-dimensional index whose row-major offset is `f`.
pub open spec fn unflatten(dims: Seq<usize>, f: int) -> Seq<int>
    decreases dims.len(),
{
    if dims.len() == 0 {
        Seq::<int>::empty()
    } else {
        unflatten(dims.drop_last(), f / (dims.last() as int)).push(f % (dims.last() as int))
    }
}

/// Every offset within the element count is the row-major offset of exactly
/// the index that `unflatten` rebuilds, and that index is valid.
pub proof fn lemma_unflatten(dims: Seq<usize>, f: int)
    requires
        0 <= f < product(dims),
    ensures
        valid_index(dims, unflatten(dims, f)),
        flat_index(dims, unflatten(dims, f)) == f,
    decreases dims.len(),
{
    if dims.len() == 0 {
        assert(unflatten(dims, f) =~= Seq::<int>::empty());
    } else {
        let dl = dims.drop_last();
        let l = dims.last() as int;
        let p = product(dl);
        lemma_product_nonneg(dl);
        assert(l >= 1 && p >= 1) by (nonlinear_arith)
            requires
                p >= 0,
                l >= 0,
                p * l > 0,
        ;
        lemma_fundamental_div_mod(f, l);
        lemma_mod_bound(f, l);
        assert(f / l < p) by (nonlinear_arith)
            requires
                l >= 1,
                0 <= f < p * l,
                f == l * (f / l) + (f % l),
                0 <= f % l < l,
        ;
        assert(f / l >= 0) by (nonlinear_arith)
            requires
                l >= 1,
                f >= 0,
                f == l * (f / l) + (f % l),
                0 <= f % l < l,
        ;
        lemma_unflatten(dl, f / l);
        let u = unflatten(dims, f);
        assert(u.drop_last() =~= unflatten(dl, f / l));
        assert(flat_index(dims, u) == (f / l) * l + f % l);
        assert((f / l) * l == l * (f / l)) by (nonlinear_arith);
    }
}

/// `p` is a total permutation of `[0, rank)`.
pub open spec fn is_permutation(p: Seq<usize>, rank: int) -> bool {
    &&& p.len() == rank
    &&& forall|i: int| 0 <= i < rank ==> (#[trigger] p[i]) < rank
    &&& forall|i: int, j: int| 0 <= i < j < rank ==> p[i] != p[j]
}

/// `q` undoes `p`: following `q` and then `p` lands back on the same axis.
pub open spec fn is_inverse_permutation(p: Seq<usize>, q: Seq<usize>) -> bool {
    &&& is_permutation(q, p.len() as int)
    &&& forall|j: int| 0 <= j < p.len() ==> p[#[trigger] q[j] as int] as int == j
}

/// The shape after a transpose: axis `p[i]` of the input becomes axis `i`.
pub open spec fn permuted_dims(dims: Seq<usize>, p: Seq<usize>) -> Seq<usize> {
    Seq::new(p.len() as nat, |i: int| dims[p[i] as int])
}

/// The output index of a transpose for input index `idx`.
pub open spec fn permuted_index(idx: Seq<int>, p: Seq<usize>) -> Seq<int> {
    Seq::new(p.len() as nat, |i: int| idx[p[i] as int])
}

pub proof fn lemma_permuted_index_valid(dims: Seq<usize>, p: Seq<usize>, idx: Seq<int>)
    requires
        is_permutation(p, dims.len() as int),
        valid_index(dims, idx),
    ensures
        valid_index(permuted_dims(dims, p), permuted_index(idx, p)),
{
}

/// What a transpose by `p` does: the output shape is the permuted shape and
/// every element moves from input index `idx` to output index
/// `permuted_index(idx, p)`.
pub open spec fn transpose_rel(
    d: Seq<usize>,
    c: Seq<int>,
    p: Seq<usize>,
    rd: Seq<usize>,
    rc: Seq<int>,
) -> bool {
    &&& rd == permuted_dims(d, p)
    &&& rc.len() == product(rd)
    &&& forall|idx: Seq<int>|
        #[trigger] valid_index(d, idx) ==> rc[flat_index(rd, permuted_index(idx, p))]
            == c[flat_index(d, idx)]
}

/// Axis indices in a reduction list are pairwise distinct.
pub open spec fn unique_axes(s: Seq<(usize, Operation)>) -> bool {
    forall|i: int, j: int|
        0 <= i < j < s.len() ==> (#[trigger] s[i]).0 != (#[trigger] s[j]).0
}

/// Some pair of the reduction list names axis `a`.
pub open spec fn axis_listed(s: Seq<(usize, Operation)>, a: int) -> bool {
    exists|i: int| 0 <= i < s.len() && (#[trigger] s[i]).0 == a
}

/// The operation paired with axis `a`: the first match in the list.
pub open spec fn op_at(s: Seq<(usize, Operation)>, a: int) -> Operation
    decreases s.len(),
{
    if s.len() == 0 {
        Operation::Min
    } else if s[0].0 == a {
        s[0].1
    } else {
        op_at(s.drop_first(), a)
    }
}

/// With distinct axes, any pair of the list determines `op_at` for its axis.
pub proof fn lemma_op_at(s: Seq<(usize, Operation)>, t: int)
    requires
        unique_axes(s),
        0 <= t < s.len(),
    ensures
        axis_listed(s, s[t].0 as int),
        op_at(s, s[t].0 as int) == s[t].1,
    decreases s.len(),
{
    if t > 0 {
        assert(s[0].0 != s[t].0);
        let sd = s.drop_first();
        assert(unique_axes(sd)) by {
            assert(forall|i: int, j: int|
                0 <= i < j < sd.len() ==> (#[trigger] sd[i]).0 != (#[trigger] sd[j]).0) by {
                assert(forall|i: int| 0 <= i < sd.len() ==> sd[i] == s[i + 1]);
            }
        }
        lemma_op_at(sd, t - 1);
        assert(sd[t - 1] == s[t]);
    }
}

/// The shape left after reducing every listed axis in `[k, rank)`, highest
/// axis first.
pub open spec fn reduce_dims_from(
    d: Seq<usize>,
    s: Seq<(usize, Operation)>,
    k: int,
    rank: int,
) -> Seq<usize>
    decreases rank - k,
{
    if k >= rank {
        d
    } else {
        let d1 = reduce_dims_from(d, s, k + 1, rank);
        if axis_listed(s, k) {
            d1.remove(k)
        } else {
            d1
        }
    }
}

/// Insertion positions of a broadcast call, given in the final axis
/// numbering, must be strictly increasing.
pub open spec fn positions_strictly_increasing(pairs: Seq<(usize, usize)>) -> bool {
    forall|i: int, j: int|
        0 <= i < j < pairs.len() ==> (#[trigger] pairs[i]).0 < (#[trigger] pairs[j]).0
}

/// In a strictly increasing position list the values grow at least as fast
/// as the indices.
pub proof fn lemma_increasing_gap(pairs: Seq<(usize, usize)>, i: int, j: int)
    requires
        positions_strictly_increasing(pairs),
        0 <= i <= j < pairs.len(),
    ensures
        pairs[j].0 as int >= pairs[i].0 as int + (j - i),
    decreases j - i,
{
    if i < j {
        lemma_increasing_gap(pairs, i, j - 1);
    }
}

/// The shape after inserting a length-1 axis at each listed position, first
/// pair first.
pub open spec fn insert_ones(dims: Seq<usize>, pairs: Seq<(usize, usize)>) -> Seq<usize>
    decreases pairs.len(),
{
    if pairs.len() == 0 {
        dims
    } else {
        insert_ones(dims.insert(pairs[0].0 as int, 1usize), pairs.drop_first())
    }
}

pub proof fn lemma_insert_ones_push(dims: Seq<usize>, pairs: Seq<(usize, usize)>, pr: (usize, usize))
    ensures
        insert_ones(dims, pairs.push(pr)) == insert_ones(dims, pairs).insert(pr.0 as int, 1usize),
    decreases pairs.len(),
{
    if pairs.len() == 0 {
        assert(pairs.push(pr)[0] == pr);
        assert(pairs.push(pr).drop_first() =~= pairs);
        assert(insert_ones(dims, pairs.push(pr)) == insert_ones(
            dims.insert(pr.0 as int, 1usize),
            pairs,
        ));
        assert(insert_ones(dims.insert(pr.0 as int, 1usize), pairs) == dims.insert(
            pr.0 as int,
            1usize,
        ));
        assert(insert_ones(dims, pairs) == dims);
    } else {
        let d1 = dims.insert(pairs[0].0 as int, 1usize);
        assert(pairs.push(pr)[0] == pairs[0]);
        assert(pairs.push(pr).drop_first() =~= pairs.drop_first().push(pr));
        assert(insert_ones(dims, pairs.push(pr)) == insert_ones(
            d1,
            pairs.drop_first().push(pr),
        ));
        lemma_insert_ones_push(d1, pairs.drop_first(), pr);
        assert(insert_ones(dims, pairs) == insert_ones(d1, pairs.drop_first()));
    }
}

pub proof fn lemma_insert_ones_len(dims: Seq<usize>, pairs: Seq<(usize, usize)>)
    requires
        forall|u: int|
            0 <= u < pairs.len() ==> ((#[trigger] pairs[u]).0 as int) <= dims.len() + u,
    ensures
        insert_ones(dims, pairs).len() == dims.len() + pairs.len(),
    decreases pairs.len(),
{
    if pairs.len() > 0 {
        let d1 = dims.insert(pairs[0].0 as int, 1usize);
        assert(d1.len() == dims.len() + 1);
        assert(forall|u: int|
            0 <= u < pairs.drop_first().len() ==> #[trigger] pairs.drop_first()[u] == pairs[u
                + 1]);
        lemma_insert_ones_len(d1, pairs.drop_first());
    }
}

/// Strictly increasing positions below the final rank stay within bounds at
/// each insertion step.
pub proof fn lemma_positions_bounded(base: int, pairs: Seq<(usize, usize)>)
    requires
        positions_strictly_increasing(pairs),
        forall|u: int|
            0 <= u < pairs.len() ==> ((#[trigger] pairs[u]).0 as int) < base + pairs.len(),
    ensures
        forall|u: int| 0 <= u < pairs.len() ==> ((#[trigger] pairs[u]).0 as int) <= base + u,
{
    assert forall|u: int|
        0 <= u < pairs.len() implies ((#[trigger] pairs[u]).0 as int) <= base + u by {
        lemma_increasing_gap(pairs, u, pairs.len() - 1);
    }
}

/// The per-final-axis repeat counts of a broadcast call: the requested
/// length at each inserted position, 1 everywhere else.
pub open spec fn repeat_factors(naxes: int, pairs: Seq<(usize, usize)>) -> Seq<usize>
    decreases pairs.len(),
{
    if pairs.len() == 0 {
        Seq::new(naxes as nat, |i: int| 1usize)
    } else {
        repeat_factors(naxes, pairs.drop_last()).update(
            pairs.last().0 as int,
            pairs.last().1,
        )
    }
}

pub proof fn lemma_repeat_factors_len(naxes: int, pairs: Seq<(usize, usize)>)
    requires
        naxes >= 0,
        forall|u: int| 0 <= u < pairs.len() ==> ((#[trigger] pairs[u]).0 as int) < naxes,
    ensures
        repeat_factors(naxes, pairs).len() == naxes,
    decreases pairs.len(),
{
    if pairs.len() > 0 {
        assert(forall|u: int|
            0 <= u < pairs.drop_last().len() ==> #[trigger] pairs.drop_last()[u] == pairs[u]);
        lemma_repeat_factors_len(naxes, pairs.drop_last());
        assert(((pairs.last().0 as int)) < naxes);
    }
}

/// The coordinate-wise remainder of an index against a source shape: where a
/// tiled element comes from.
pub open spec fn mod_index(idx: Seq<int>, dims: Seq<usize>) -> Seq<int> {
    Seq::new(idx.len() as nat, |i: int| idx[i] % (dims[i] as int))
}

/// The element count of a shape after scaling each axis by a repeat factor.
pub open spec fn product_scaled(dims: Seq<usize>, reps: Seq<usize>) -> int
    decreases dims.len(),
{
    if dims.len() == 0 {
        1
    } else {
        product_scaled(dims.drop_last(), reps.drop_last()) * ((dims.last() as int) * (
        reps.last() as int))
    }
}

pub proof fn lemma_adjacent_gap(pairs: Seq<(usize, usize)>, i: int, j: int)
    requires
        forall|t: int| 1 <= t < pairs.len() ==> (#[trigger] pairs[t]).0 > pairs[t - 1].0,
        0 <= i < j < pairs.len(),
    ensures
        pairs[i].0 < pairs[j].0,
    decreases j - i,
{
    if i + 1 < j {
        lemma_adjacent_gap(pairs, i, j - 1);
    }
}

/// Pairwise increasing positions follow from adjacent increases.
pub proof fn lemma_adjacent_implies_increasing(pairs: Seq<(usize, usize)>)
    requires
        forall|t: int| 1 <= t < pairs.len() ==> (#[trigger] pairs[t]).0 > pairs[t - 1].0,
    ensures
        positions_strictly_increasing(pairs),
{
    assert forall|i: int, j: int| 0 <= i < j < pairs.len() implies (#[trigger] pairs[i]).0 < (
    #[trigger] pairs[j]).0 by {
        lemma_adjacent_gap(pairs, i, j);
    }
}

/// With strictly increasing positions that fit the final rank, the shape with
/// the length-1 axes inserted holds a 1 at every inserted position.
pub proof fn lemma_insert_ones_positions(dims: Seq<usize>, pairs: Seq<(usize, usize)>, t: int)
    requires
        positions_strictly_increasing(pairs),
        forall|u: int|
            0 <= u < pairs.len() ==> ((#[trigger] pairs[u]).0 as int) < dims.len() + pairs.len(),
        0 <= t < pairs.len(),
    ensures
        insert_ones(dims, pairs)[pairs[t].0 as int] == 1usize,
    decreases pairs.len(),
{
    lemma_positions_bounded(dims.len() as int, pairs);
    lemma_insert_ones_len(dims, pairs);
    let s = pairs.drop_last();
    let pr = pairs.last();
    assert(pairs =~= s.push(pr));
    assert(forall|u: int| 0 <= u < s.len() ==> #[trigger] s[u] == pairs[u]);
    lemma_insert_ones_push(dims, s, pr);
    lemma_insert_ones_len(dims, s);
    let base = insert_ones(dims, s);
    if t == pairs.len() - 1 {
        assert(base.insert(pr.0 as int, 1usize)[pr.0 as int] == 1usize);
    } else {
        assert forall|u: int|
            0 <= u < s.len() implies ((#[trigger] s[u]).0 as int) < dims.len() + s.len() by {
            lemma_increasing_gap(pairs, u, pairs.len() - 1);
        }
        lemma_insert_ones_positions(dims, s, t);
        assert(s[t] == pairs[t]);
        lemma_increasing_gap(pairs, t, pairs.len() - 1);
        assert(base.insert(pr.0 as int, 1usize)[pairs[t].0 as int] == base[pairs[t].0 as int]);
    }
}

/// With distinct positions, the repeat-factor vector holds each requested
/// length at its position.
pub proof fn lemma_repeat_factors_at(naxes: int, pairs: Seq<(usize, usize)>, t: int)
    requires
        positions_strictly_increasing(pairs),
        forall|u: int| 0 <= u < pairs.len() ==> ((#[trigger] pairs[u]).0 as int) < naxes,
        0 <= t < pairs.len(),
    ensures
        repeat_factors(naxes, pairs)[pairs[t].0 as int] == pairs[t].1,
    decreases pairs.len(),
{
    assert(((pairs[t]).0 as int) < naxes);
    assert(forall|u: int|
        0 <= u < pairs.drop_last().len() ==> #[trigger] pairs.drop_last()[u] == pairs[u]);
    lemma_repeat_factors_len(naxes, pairs.drop_last());
    if t == pairs.len() - 1 {
    } else {
        lemma_repeat_factors_at(naxes, pairs.drop_last(), t);
        lemma_increasing_gap(pairs, t, pairs.len() - 1);
    }
}

/// Computes the element count of a shape; None when it does not fit `usize`.
pub fn shape_product(dims: &Vec<usize>) -> (r: Option<usize>)
    ensures
        (r matches Some(p) ==> p as int == product(dims@)),
        r is None ==> product(dims@) > usize::MAX || product(dims@) == 0,
{
    let mut acc: usize = 1;
    let mut i: usize = 0;
    while i < dims.len()
        invariant
            0 <= i <= dims@.len(),
            acc as int == product(dims@.take(i as int)),
        decreases dims@.len() - i,
    {
        proof {
            assert(dims@.take(i as int + 1).drop_last() =~= dims@.take(i as int));
            assert(dims@.take(i as int + 1).last() == dims@[i as int]);
        }
        acc = match acc.checked_mul(dims[i]) {
            Some(v) => v,
            None => {
                proof {
                    lemma_none_product(dims@, i as int, acc as int);
                }
                return None;
            },
        };
        i += 1;
    }
    proof {
        assert(dims@.take(dims@.len() as int) =~= dims@);
    }
    Some(acc)
}

proof fn lemma_none_product(dims: Seq<usize>, i: int, acc: int)
    requires
        0 <= i < dims.len(),
        acc == product(dims.take(i)),
        acc * (dims[i] as int) > usize::MAX,
    ensures
        product(dims) > usize::MAX || product(dims) == 0,
{
    if exists|k: int| 0 <= k < dims.len() && dims[k] == 0 {
        let k = choose|k: int| 0 <= k < dims.len() && dims[k] == 0;
        lemma_product_zero_axis(dims, k);
    } else {
        assert(forall|k: int| 0 <= k < dims.len() ==> #[trigger] dims[k] >= 1);
        lemma_product_split(dims, i + 1);
        assert(dims.take(i + 1).drop_last() =~= dims.take(i));
        assert(dims.take(i + 1).last() == dims[i]);
        assert(product(dims.take(i + 1)) == acc * (dims[i] as int));
        assert(forall|k: int|
            0 <= k < dims.skip(i + 1).len() ==> #[trigger] dims.skip(i + 1)[k] >= 1);
        lemma_product_positive(dims.skip(i + 1));
        assert(product(dims) > usize::MAX) by (nonlinear_arith)
            requires
                product(dims) == product(dims.take(i + 1)) * product(dims.skip(i + 1)),
                product(dims.take(i + 1)) > usize::MAX,
                product(dims.skip(i + 1)) >= 1,
        ;
    }
}

/// Decides whether `axes` is a total permutation of `[0, rank)`.
pub fn check_permutation(axes: &Vec<usize>, rank: usize) -> (r: bool)
    ensures
        r == is_permutation(axes@, rank as int),
{
    if axes.len() != rank {
        return false;
    }
    let mut seen: Vec<bool> = Vec::new();
    let mut k: usize = 0;
    while k < rank
        invariant
            seen@.len() == k,
            0 <= k <= rank,
            forall|j: int| 0 <= j < k ==> !(#[trigger] seen@[j]),
        decreases rank - k,
    {
        seen.push(false);
        k += 1;
    }
    let mut i: usize = 0;
    while i < rank
        invariant
            rank == axes@.len(),
            seen@.len() == rank,
            0 <= i <= rank,
            forall|j: int|
                0 <= j < rank ==> ((#[trigger] seen@[j]) <==> exists|t: int|
                    0 <= t < i && (#[trigger] axes@[t]) as int == j),
            forall|t: int| 0 <= t < i ==> (#[trigger] axes@[t]) < rank,
            forall|t1: int, t2: int| 0 <= t1 < t2 < i ==> axes@[t1] != axes@[t2],
        decreases rank - i,
    {
        let a = axes[i];
        if a >= rank {
            return false;
        }
        if seen[a] {
            proof {
                let t = choose|t: int| 0 <= t < i && (axes@[t]) as int == a as int;
                assert(axes@[t] == axes@[i as int]);
            }
            return false;
        }
        seen.set(a, true);
        i += 1;
    }
    true
}

} // verus!
